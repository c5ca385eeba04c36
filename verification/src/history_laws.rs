//! What histories hold and show, entry by entry.
use vstd::prelude::*;

use crate::delta;
use crate::delta::DeltaFault;
use crate::history;
use crate::history::{EntryView, HistoryEntry, HistoryError, HistoryLine};
use crate::history_diff;
use crate::history_diff::FullDiffView;
use crate::history_file;
use crate::history_file::Cleanup;
use crate::line_diff;
use crate::lines;
use crate::order;
use crate::text;

verus! {

/// An entry says its own time, its own path, and whether its own version was saved.
pub proof fn law_entries_say_what_they_hold(t: u64, p: String, body: String, saved: bool)
    ensures
        ({
            let snapshot = (HistoryEntry::Snapshot { t, p, c: body, saved })@;
            let delta = (HistoryEntry::Delta { t, p, d: body, saved })@;
            &&& snapshot == (EntryView::Snapshot { t, p: p@, c: body@, saved })
            &&& delta == (EntryView::Delta { t, p: p@, d: body@, saved })
            &&& snapshot.time() == t && delta.time() == t
            &&& snapshot.path() == p@ && delta.path() == p@
            &&& snapshot.saved() == saved && delta.saved() == saved
        }),
{
}

/// The entries of a file are those of its lines, in order: a line holds its entry unless all its
/// characters are white space.
pub proof fn law_entries_are_read_in_order(front: Seq<HistoryLine>, line: HistoryLine)
    ensures
        history::entries_in(Seq::empty()) == Seq::<EntryView>::empty(),
        line.entry is None ==> history::entries_in(front.push(line)) == history::entries_in(front),
        (forall|i: int| 0 <= i < line.text@.len() ==> lines::is_white(#[trigger] line.text@[i]))
            ==> history::entries_in(front.push(line)) == history::entries_in(front),
        line.entry matches Some(e) ==> forall|i: int|
            0 <= i < line.text@.len() && !lines::is_white(#[trigger] line.text@[i])
                ==> history::entries_in(front.push(line)) == history::entries_in(front).push(e@),
{
    assert(front.push(line).drop_last() =~= front);
}

/// A snapshot is the version that follows, whatever came before it.
pub proof fn law_a_snapshot_is_the_version(
    start: Seq<char>,
    entries: Seq<EntryView>,
    t: u64,
    p: Seq<char>,
    c: Seq<char>,
    saved: bool,
)
    ensures
        ({
            let after = entries.push(EntryView::Snapshot { t, p, c, saved });
            &&& history::run_from(start, after) == c
            &&& history::latest(after) == Some(c)
            &&& history::deltas_since_snapshot(after) == 0
            &&& history::last_state(after) == Some((c, 0nat))
        }),
{
}

/// A delta that leads from the version before to another one makes that the version that follows,
/// and one more delta is counted.
pub proof fn law_a_delta_makes_the_version(
    start: Seq<char>,
    entries: Seq<EntryView>,
    t: u64,
    p: Seq<char>,
    d: Seq<char>,
    saved: bool,
    new: Seq<char>,
)
    ensures
        ({
            let after = entries.push(EntryView::Delta { t, p, d, saved });
            &&& delta::leads_to(d, history::run_from(start, entries), new) ==> history::run_from(
                start,
                after,
            ) == new
            &&& history::latest(entries) matches Some(version) ==> delta::leads_to(d, version, new)
                ==> history::latest(after) == Some(new) && history::deltas_since_snapshot(after)
                == history::deltas_since_snapshot(entries) + 1 && history::last_state(after) == Some(
                (new, history::deltas_since_snapshot(entries) + 1),
            )
        }),
{
    let after = entries.push(EntryView::Delta { t, p, d, saved });
    assert(after.drop_last() =~= entries);
}

/// A delta that cannot be applied leaves the version before, and is not counted. Before the first
/// snapshot there is no version, and a delta makes none.
pub proof fn law_a_broken_delta_changes_nothing(
    start: Seq<char>,
    entries: Seq<EntryView>,
    t: u64,
    p: Seq<char>,
    d: Seq<char>,
    saved: bool,
)
    ensures
        history::run_from(start, Seq::empty()) == start,
        history::latest(Seq::empty()) is None,
        ({
            let after = entries.push(EntryView::Delta { t, p, d, saved });
            &&& delta::delta_result(history::run_from(start, entries), d) is Err
                ==> history::run_from(start, after) == history::run_from(start, entries)
            &&& history::latest(entries) is None ==> history::latest(after) is None
                && history::last_state(after) is None
            &&& history::latest(entries) matches Some(version) ==> delta::delta_result(
                version,
                d,
            ) is Err ==> history::latest(after) == Some(version) && history::deltas_since_snapshot(
                after,
            ) == history::deltas_since_snapshot(entries)
        }),
{
    let after = entries.push(EntryView::Delta { t, p, d, saved });
    assert(after.drop_last() =~= entries);
}

/// There is a version exactly where there is a snapshot.
pub proof fn law_versions_need_a_snapshot(entries: Seq<EntryView>)
    ensures
        history::latest(entries) is Some <==> exists|i: int|
            0 <= i < entries.len() && (#[trigger] entries[i]) is Snapshot,
    decreases entries.len(),
{
    if entries.len() > 0 {
        let front = entries.drop_last();
        law_versions_need_a_snapshot(front);
        if exists|i: int| 0 <= i < front.len() && (#[trigger] front[i]) is Snapshot {
            let i = choose|i: int| 0 <= i < front.len() && (#[trigger] front[i]) is Snapshot;
            assert(entries[i] is Snapshot);
        }
        if entries.last() is Snapshot {
            assert(entries[entries.len() - 1] is Snapshot);
        }
        if exists|i: int| 0 <= i < entries.len() && (#[trigger] entries[i]) is Snapshot {
            let i = choose|i: int| 0 <= i < entries.len() && (#[trigger] entries[i]) is Snapshot;
            if i < front.len() {
                assert(front[i] is Snapshot);
            }
        }
    }
}

/// The version at a time is the latest one of the entries before the first that is later; the time
/// zero asks for all entries. There is none exactly where there is no snapshot among them, and a
/// history without entries says so.
pub proof fn law_the_version_at_a_time(entries: Seq<EntryView>, t: u64, n: int)
    requires
        0 <= n <= entries.len(),
        t == 0 ==> n == entries.len(),
        t > 0 ==> forall|i: int| 0 <= i < n ==> (#[trigger] entries[i]).time() <= t,
        t > 0 && n < entries.len() ==> entries[n].time() > t,
    ensures
        entries.len() == 0 <==> history::restored(entries, t) == Err::<Seq<char>, HistoryError>(
            HistoryError::NoEntries,
        ),
        entries.len() > 0 ==> (history::restored(entries, t) matches Ok(version) ==> history::latest(
            entries.take(n),
        ) == Some(version)),
        entries.len() > 0 ==> (history::restored(entries, t) is Ok <==> exists|i: int|
            0 <= i < n && (#[trigger] entries[i]) is Snapshot),
        entries.len() > 0 && history::restored(entries, t) is Err ==> history::restored(entries, t)
            == Err::<Seq<char>, HistoryError>(HistoryError::NoSnapshot),
{
    let head = entries.take(n);
    if t == 0 {
        history::lemma_up_to(entries, u64::MAX, n as nat);
    } else {
        history::lemma_up_to(entries, t, n as nat);
    }
    law_versions_need_a_snapshot(head);
    if exists|i: int| 0 <= i < n && (#[trigger] entries[i]) is Snapshot {
        let i = choose|i: int| 0 <= i < n && (#[trigger] entries[i]) is Snapshot;
        assert(head[i] is Snapshot);
    }
    if exists|i: int| 0 <= i < head.len() && (#[trigger] head[i]) is Snapshot {
        let i = choose|i: int| 0 <= i < head.len() && (#[trigger] head[i]) is Snapshot;
        assert(entries[i] is Snapshot);
    }
}

/// Entries can be run exactly where each delta decodes on the version before it.
pub proof fn law_runs_need_decodable_deltas(start: Seq<char>, entries: Seq<EntryView>, i: int)
    requires
        history::runs(start, entries),
        0 <= i < entries.len(),
    ensures
        entries[i] matches EntryView::Delta { d, .. } ==> delta::decodes(
            history::run_from(start, entries.take(i)).len(),
            d,
        ),
    decreases entries.len(),
{
    if i == entries.len() - 1 {
        assert(entries.take(i) =~= entries.drop_last());
    } else {
        law_runs_need_decodable_deltas(start, entries.drop_last(), i);
        assert(entries.drop_last().take(i) =~= entries.take(i));
    }
}

/// Every entry is listed once, with its kind, its time, its path and whether it was saved; a later
/// time comes first, and among entries of one time the one that was written first.
pub proof fn law_entries_are_listed_newest_first(entries: Seq<EntryView>) -> (order: Seq<int>)
    ensures
        order.len() == entries.len(),
        order.no_duplicates(),
        history::listing(entries).len() == entries.len(),
        forall|i: int|
            0 <= i < order.len() ==> {
                let m = history::listing(entries)[i];
                let e = entries[#[trigger] order[i]];
                &&& 0 <= order[i] < entries.len()
                &&& m.entry_type == (if e is Snapshot {
                    "snapshot"@
                } else {
                    "delta"@
                })
                &&& m.timestamp == e.time()
                &&& m.file_path == e.path()
                &&& m.saved == e.saved()
            },
        forall|i: int, j: int|
            0 <= i < j < order.len() ==> {
                let a = entries[#[trigger] order[i]];
                let b = entries[#[trigger] order[j]];
                a.time() > b.time() || a.time() == b.time() && order[i] < order[j]
            },
{
    let times = history::times(entries);
    let order = order::newest_order(times);
    order::law_newest_order(times);
    order::law_newest_first_lists_each_once(times, order);
    assert forall|i: int, j: int| 0 <= i < j < order.len() implies {
        let a = entries[#[trigger] order[i]];
        let b = entries[#[trigger] order[j]];
        a.time() > b.time() || a.time() == b.time() && order[i] < order[j]
    } by {
        assert(order::before(times, order[i], order[j]));
        assert(times[order[i]] == entries[order[i]].time());
        assert(times[order[j]] == entries[order[j]].time());
    }
    order
}

/// What the user is told of each error.
pub proof fn law_errors_are_told_apart(fault: DeltaFault)
    ensures
        HistoryError::NoEntries.said() == "No history entries"@,
        HistoryError::NoSnapshot.said() == "No snapshot found"@,
        HistoryError::EntryNotFound.said() == "Entry not found"@,
        HistoryError::Delta(fault).said() == "Delta error: "@ + (if fault
            == DeltaFault::InvalidInput {
            "InvalidInput"@
        } else if fault == DeltaFault::Utf8Error {
            "Utf8Error"@
        } else {
            "HtmlWithError"@
        }),
{
}

/// The lines that a difference shows lead from one text to another: without the insertions they
/// are the lines of the first, and without the deletions those of the second.
pub open spec fn shows_the_way(
    diff: Seq<(Seq<char>, Seq<char>)>,
    old: Seq<char>,
    new: Seq<char>,
) -> bool {
    &&& line_diff::lines_but(diff, "insert"@) == text::split_on(old, '\n')
    &&& line_diff::lines_but(diff, "delete"@) == text::split_on(new, '\n')
}

/// The position of the last saved entry is one that was saved, and none after it was; there is none
/// exactly where no entry was saved.
pub proof fn law_the_last_save_is_found(entries: Seq<EntryView>, k: int)
    requires
        -1 <= k < entries.len(),
        k >= 0 ==> entries[k].saved(),
        forall|i: int| k < i < entries.len() ==> !(#[trigger] entries[i]).saved(),
    ensures
        history_diff::last_saved(entries) == if k >= 0 {
            Some(k)
        } else {
            None
        },
{
    history_diff::lemma_last_saved_range(entries);
    match history_diff::last_saved(entries) {
        Some(j) => {
            if j < k {
                assert(entries[k].saved());
            }
        },
        None => {},
    }
}

/// What is unsaved, where the entry `k` was saved last and others follow: it leads from the version
/// at the save to the version at the end, counts the entries since, and names the time of the save.
pub proof fn law_unsaved_changes_are_shown(entries: Seq<EntryView>, k: int, comparable: bool)
    requires
        0 <= k && k + 1 < entries.len(),
        entries[k].saved(),
        forall|i: int| k < i < entries.len() ==> !(#[trigger] entries[i]).saved(),
    ensures
        history_diff::unsaved(entries, comparable) is Some,
        ({
            let u = history_diff::unsaved(entries, comparable)->0;
            &&& shows_the_way(u.diff_lines, u.saved_content, u.latest_content)
            &&& history::latest(entries.take(k + 1)) matches Some(version) ==> u.saved_content
                == version
            &&& history::latest(entries.take(k + 1)) is None ==> u.saved_content.len() == 0
            &&& u.latest_content == history::run_from(u.saved_content, entries.skip(k + 1))
            &&& u.unsaved_count == entries.len() - k - 1
            &&& u.last_saved_timestamp == entries[k].time()
            &&& comparable ==> line_diff::lines_with(u.diff_lines, "equal"@) == line_diff::lcs(
                text::split_on(u.saved_content, '\n'),
                text::split_on(u.latest_content, '\n'),
            )
            &&& !comparable ==> line_diff::lines_with(u.diff_lines, "equal"@).len() == 0
        }),
{
    law_the_last_save_is_found(entries, k);
    let u = history_diff::unsaved(entries, comparable)->0;
    law_shown_lines_lead_to_the_new_text(u.saved_content, u.latest_content, comparable);
}

/// However two versions are shown, the lines lead from the one to the other.
pub proof fn law_shown_lines_lead_to_the_new_text(old: Seq<char>, new: Seq<char>, comparable: bool)
    ensures
        shows_the_way(history_diff::shown(old, new, comparable), old, new),
        comparable ==> line_diff::lines_with(
            history_diff::shown(old, new, comparable),
            "equal"@,
        ) == line_diff::lcs(text::split_on(old, '\n'), text::split_on(new, '\n')),
        !comparable ==> line_diff::lines_with(
            history_diff::shown(old, new, comparable),
            "equal"@,
        ).len() == 0,
{
    if comparable {
        line_diff::law_line_diff_is_faithful(old, new);
        line_diff::law_line_diff_keeps_the_most(old, new);
    } else {
        line_diff::law_whole_diff_is_faithful(old, new);
    }
}

/// Nothing is unsaved exactly where no entry was saved, or the last one was.
pub proof fn law_nothing_is_unsaved_after_a_save(entries: Seq<EntryView>, comparable: bool)
    ensures
        history_diff::unsaved(entries, comparable) is None <==> {
            ||| entries.len() > 0 && entries.last().saved()
            ||| forall|i: int| 0 <= i < entries.len() ==> !(#[trigger] entries[i]).saved()
        },
{
    history_diff::lemma_last_saved_range(entries);
    match history_diff::last_saved(entries) {
        Some(k) => {
            assert(entries[k].saved());
            if entries.last().saved() {
                assert(entries[entries.len() - 1].saved());
            }
        },
        None => {
            if entries.len() > 0 {
                assert(!entries[entries.len() - 1].saved());
            }
        },
    }
}

/// What an entry changed, where it is the first of its time: the lines lead from the version to
/// which the entries before it lead to its own version, whatever follows it.
pub proof fn law_the_first_entry_of_a_time_is_compared(entries: Seq<EntryView>, t: u64, n: int)
    requires
        0 <= n < entries.len(),
        entries[n].time() == t,
        forall|i: int| 0 <= i < n ==> (#[trigger] entries[i]).time() != t,
    ensures
        ({
            let before = history::run_from(Seq::empty(), entries.take(n));
            let r = history_diff::change_at(entries, t);
            match entries[n] {
                EntryView::Snapshot { c, .. } => r matches Ok(diff) && diff.timestamp == t
                    && shows_the_way(diff.diff_lines, before, c),
                EntryView::Delta { d, .. } => match delta::delta_result(before, d) {
                    Ok(after) => r matches Ok(diff) && diff.timestamp == t && shows_the_way(
                        diff.diff_lines,
                        before,
                        after,
                    ),
                    Err(fault) => r == Err::<FullDiffView, HistoryError>(
                        HistoryError::Delta(fault),
                    ),
                },
            }
        }),
        history_diff::entries_through(entries, t) == entries.take(n + 1),
{
    history_diff::lemma_first_of_a_time(entries, t, n as nat);
    let before = history::run_from(Seq::empty(), entries.take(n));
    match entries[n] {
        EntryView::Snapshot { c, .. } => {
            line_diff::law_line_diff_is_faithful(before, c);
        },
        EntryView::Delta { d, .. } => {
            if let Ok(after) = delta::delta_result(before, d) {
                line_diff::law_line_diff_is_faithful(before, after);
            }
        },
    }
}

/// No entry is found exactly where none has the time.
pub proof fn law_a_missing_entry_is_not_found(entries: Seq<EntryView>, t: u64)
    requires
        forall|i: int| 0 <= i < entries.len() ==> (#[trigger] entries[i]).time() != t,
    ensures
        history_diff::change_at(entries, t) == Err::<FullDiffView, HistoryError>(
            HistoryError::EntryNotFound,
        ),
        history_diff::entries_through(entries, t) == entries,
{
    history_diff::lemma_first_of_a_time(entries, t, entries.len());
    assert(entries.take(entries.len() as int) =~= entries);
}

/// What comes of comparing an entry's version with the one before it: the lines lead from the one
/// to the other, and where there is no version its fault is told.
pub proof fn law_a_change_leads_to_the_new_version(
    t: u64,
    before: Seq<char>,
    after: Seq<char>,
    fault: DeltaFault,
)
    ensures
        history_diff::change(t, before, Ok(after)) matches Ok(diff) && diff.timestamp == t
            && shows_the_way(diff.diff_lines, before, after),
        history_diff::change(t, before, Err(fault)) == Err::<FullDiffView, HistoryError>(
            HistoryError::Delta(fault),
        ),
{
    line_diff::law_line_diff_is_faithful(before, after);
}

/// A glance is had exactly of an entry that was not saved, whose version could be had and differs
/// from the one before; it names the entry's time and shows the change of the two versions.
pub proof fn law_a_glance_shows_an_unsaved_change(
    t: u64,
    saved: bool,
    before: Seq<char>,
    after: Seq<char>,
    fault: DeltaFault,
)
    ensures
        history_diff::glance(t, saved, before, Err(fault)) is None,
        history_diff::glance(t, saved, before, Ok(after)) is Some <==> !saved && before != after,
        history_diff::glance(t, saved, before, Ok(after)) matches Some(p) ==> p.timestamp == t && (
            p.preview_lines,
            p.total_changes,
        ) == line_diff::preview(before, after),
{
    line_diff::law_preview_sees_every_change(before, after);
}

/// The glances at a history follow its entries in order: each entry adds its own, if there is one,
/// at the change from the version before it to its own version.
pub proof fn law_glances_follow_the_entries(front: Seq<EntryView>, e: EntryView)
    ensures
        history_diff::glances(Seq::empty()).len() == 0,
        ({
            let before = history::run_from(Seq::empty(), front);
            let after = history::run_from(Seq::empty(), front.push(e));
            let glances = history_diff::glances(front.push(e));
            if e.saved() || before == after {
                glances == history_diff::glances(front)
            } else {
                &&& glances.len() == history_diff::glances(front).len() + 1
                &&& glances.drop_last() == history_diff::glances(front)
                &&& glances.last().timestamp == e.time()
                &&& (glances.last().preview_lines, glances.last().total_changes)
                    == line_diff::preview(before, after)
            }
        }),
{
    assert(front.push(e).drop_last() =~= front);
    let before = history::run_from(Seq::empty(), front);
    let after = history::run_from(Seq::empty(), front.push(e));
    line_diff::law_preview_sees_every_change(before, after);
    let glances = history_diff::glances(front.push(e));
    if !e.saved() && before != after {
        assert(glances.drop_last() =~= history_diff::glances(front));
    }
}

/// An entry is old exactly where more than thirty days of twenty-four hours have passed since its
/// time.
pub proof fn law_old_is_older_than_thirty_days(now: u64, t: u64)
    ensures
        now >= 30 * 24 * 3600 ==> history_file::cutoff(now) + 30 * 24 * 3600 == now,
        now < 30 * 24 * 3600 ==> history_file::cutoff(now) == 0,
        t < history_file::cutoff(now) <==> t + 30 * 24 * 3600 < now,
{
}

/// The line holds an entry of that time or later.
pub open spec fn is_recent(line: HistoryLine, cutoff: u64) -> bool {
    history::entry_in(line) matches Some(e) && e.time() >= cutoff
}

/// The line holds a snapshot that is older than that.
pub open spec fn is_old_snapshot(line: HistoryLine, cutoff: u64) -> bool {
    history::entry_in(line) matches Some(e) && e is Snapshot && e.time() < cutoff
}

proof fn lemma_kept_lines(file: Seq<HistoryLine>, cutoff: u64, k: int)
    requires
        -1 <= k < file.len(),
        k >= 0 ==> is_old_snapshot(file[k], cutoff),
        forall|i: int| k < i < file.len() ==> !is_old_snapshot(#[trigger] file[i], cutoff),
    ensures
        history_file::recent_lines(file, cutoff) == file.filter(
            |line: HistoryLine| is_recent(line, cutoff),
        ),
        history_file::base_lines(file, cutoff) == if k >= 0 {
            seq![file[k]]
        } else {
            Seq::<HistoryLine>::empty()
        },
    decreases file.len(),
{
    reveal(Seq::filter);
    if file.len() > 0 {
        let front = file.drop_last();
        assert(file.last() == file[file.len() - 1]);
        if k == file.len() - 1 {
            lemma_recent_lines(front, cutoff);
        } else {
            assert forall|i: int| k < i < front.len() implies !is_old_snapshot(
                #[trigger] front[i],
                cutoff,
            ) by {
                assert(front[i] == file[i]);
            }
            lemma_kept_lines(front, cutoff, k);
            assert(!is_old_snapshot(file[file.len() - 1], cutoff));
        }
    }
}

proof fn lemma_recent_lines(file: Seq<HistoryLine>, cutoff: u64)
    ensures
        history_file::recent_lines(file, cutoff) == file.filter(
            |line: HistoryLine| is_recent(line, cutoff),
        ),
    decreases file.len(),
{
    reveal(Seq::filter);
    if file.len() > 0 {
        lemma_recent_lines(file.drop_last(), cutoff);
    }
}

/// What becomes of a history file, where `k` is the last line with an old snapshot, or less than
/// zero where there is none: the line `k` is kept and, in order, all lines with recent entries. The
/// file is left alone if that is all of it, and removed if it is nothing.
pub proof fn law_cleanup_keeps_recent_lines(
    c: Cleanup,
    file: Seq<HistoryLine>,
    cutoff: u64,
    k: int,
)
    requires
        history_file::cleans(c, file, cutoff),
        -1 <= k < file.len(),
        k >= 0 ==> is_old_snapshot(file[k], cutoff),
        forall|i: int| k < i < file.len() ==> !is_old_snapshot(#[trigger] file[i], cutoff),
    ensures
        ({
            let recent = file.filter(|line: HistoryLine| is_recent(line, cutoff));
            let kept = if k >= 0 {
                seq![file[k]] + recent
            } else {
                recent
            };
            &&& c is Leave <==> kept.len() >= file.len()
            &&& c is Remove <==> kept.len() == 0 && file.len() > 0
            &&& c matches Cleanup::Rewrite(lines) ==> {
                &&& lines@.len() == kept.len()
                &&& forall|i: int| 0 <= i < kept.len() ==> (#[trigger] lines@[i])@ == kept[i].text@
            }
        }),
{
    lemma_kept_lines(file, cutoff, k);
    let recent = file.filter(|line: HistoryLine| is_recent(line, cutoff));
    let kept = history_file::kept_lines(file, cutoff);
    if k < 0 {
        assert(kept =~= recent);
    }
    if let Cleanup::Rewrite(lines) = c {
        assert(text::contents(lines@).len() == lines@.len());
        assert forall|i: int| 0 <= i < kept.len() implies (#[trigger] lines@[i])@ == kept[i].text@ by {
            assert(text::contents(lines@)[i] == lines@[i]@);
            assert(history_file::texts(kept)[i] == kept[i].text@);
        }
    }
}

/// No entry of the last thirty days is dropped: the file is left alone, or its line is written.
pub proof fn law_cleanup_drops_nothing_recent(c: Cleanup, file: Seq<HistoryLine>, now: u64, i: int)
    requires
        history_file::cleans(c, file, history_file::cutoff(now)),
        0 <= i < file.len(),
        history::entry_in(file[i]) matches Some(e) && e.time() + 30 * 24 * 3600 >= now,
    ensures
        c is Leave || (c matches Cleanup::Rewrite(lines) && text::contents(lines@).contains(
            file[i].text@,
        )),
{
    let cutoff = history_file::cutoff(now);
    lemma_recent_lines(file, cutoff);
    let recent = history_file::recent_lines(file, cutoff);
    let pred = |line: HistoryLine| is_recent(line, cutoff);
    assert(pred(file[i]));
    file.lemma_filter_contains(pred, i);
    let kept = history_file::kept_lines(file, cutoff);
    let j = recent.index_of(file[i]);
    assert(recent.contains(file[i]));
    let at = history_file::base_lines(file, cutoff).len() + j;
    assert(kept[at] == file[i]);
    assert(history_file::texts(kept)[at] == file[i].text@);
}

/// What is left once unsaved entries are dropped, where the first `n` lines end in the last line
/// with a saved entry: those that are not blank; and nothing is dropped where there is no such
/// line.
pub proof fn law_unsaved_lines_are_dropped(file: Seq<HistoryLine>, n: nat)
    requires
        n <= file.len(),
        n > 0 ==> (history::entry_in(file[n - 1]) matches Some(e) && e.saved()),
        forall|i: int|
            n <= i < file.len() ==> (history::entry_in(#[trigger] file[i]) matches Some(e)
                ==> !e.saved()),
    ensures
        n == 0 <==> history_file::unsaved_dropped(file) is None,
        history_file::unsaved_dropped(file) matches Some(kept) ==> {
            let left = file.take(n as int).filter(
                |line: HistoryLine| !lines::is_blank(line.text@),
            );
            &&& kept.len() == left.len()
            &&& forall|i: int| 0 <= i < kept.len() ==> #[trigger] kept[i] == left[i].text@
        },
{
    history_file::lemma_saved_lines(file, n);
}

/// What the index says of a history: the number of its entries, the greatest of their times,
/// whether the last of them was not saved, and the first path that is named.
pub proof fn law_the_summary_of_a_history(entries: Seq<EntryView>, i: int)
    requires
        0 <= i < entries.len(),
    ensures
        history_file::summary(Seq::empty()) is None,
        history_file::summary(entries) is Some,
        ({
            let s = history_file::summary(entries)->0;
            &&& s.entry_count == entries.len()
            &&& s.has_unsaved == !entries[entries.len() - 1].saved()
            &&& s.last_timestamp >= entries[i].time()
            &&& exists|j: int| 0 <= j < entries.len() && (#[trigger] entries[j]).time()
                == s.last_timestamp
            &&& entries[i].path().len() > 0 && (forall|j: int|
                0 <= j < i ==> (#[trigger] entries[j]).path().len() == 0) ==> s.file_path
                == entries[i].path()
            &&& (forall|j: int| 0 <= j < entries.len() ==> (#[trigger] entries[j]).path().len() == 0)
                ==> s.file_path.len() == 0
        }),
{
    lemma_latest_time(entries, i);
    lemma_first_path(entries, i);
}

proof fn lemma_latest_time(entries: Seq<EntryView>, i: int)
    requires
        0 <= i < entries.len(),
    ensures
        history_file::latest_time(entries) >= entries[i].time(),
        exists|j: int| 0 <= j < entries.len() && (#[trigger] entries[j]).time()
            == history_file::latest_time(entries),
    decreases entries.len(),
{
    reveal_with_fuel(history_file::latest_time, 2);
    let front = entries.drop_last();
    if front.len() > 0 {
        lemma_latest_time(
            front,
            if i < front.len() {
                i
            } else {
                0
            },
        );
        let j = choose|j: int| 0 <= j < front.len() && (#[trigger] front[j]).time()
            == history_file::latest_time(front);
        assert(entries[j] == front[j]);
    }
    assert(entries[entries.len() - 1].time() == entries.last().time());
}

proof fn lemma_first_path(entries: Seq<EntryView>, i: int)
    requires
        0 <= i < entries.len(),
    ensures
        entries[i].path().len() > 0 && (forall|j: int|
            0 <= j < i ==> (#[trigger] entries[j]).path().len() == 0) ==> history_file::first_path(
            entries,
        ) == entries[i].path(),
        (forall|j: int| 0 <= j < entries.len() ==> (#[trigger] entries[j]).path().len() == 0)
            ==> history_file::first_path(entries).len() == 0,
    decreases entries.len(),
{
    reveal_with_fuel(history_file::first_path, 2);
    let front = entries.drop_last();
    if front.len() > 0 {
        if i < front.len() {
            lemma_first_path(front, i);
            if forall|j: int| 0 <= j < i ==> (#[trigger] entries[j]).path().len() == 0 {
                assert forall|j: int| 0 <= j < i implies (#[trigger] front[j]).path().len() == 0 by {
                    assert(entries[j].path().len() == 0);
                }
            }
        } else {
            lemma_first_path(front, 0);
            if forall|j: int| 0 <= j < i ==> (#[trigger] entries[j]).path().len() == 0 {
                assert forall|j: int| 0 <= j < front.len() implies (
                #[trigger] front[j]).path().len() == 0 by {
                    assert(entries[j].path().len() == 0);
                }
            }
        }
        if forall|j: int| 0 <= j < entries.len() ==> (#[trigger] entries[j]).path().len() == 0 {
            assert forall|j: int| 0 <= j < front.len() implies (#[trigger] front[j]).path().len()
                == 0 by {
                assert(entries[j].path().len() == 0);
            }
        }
    }
    assert(entries.last() == entries[entries.len() - 1]);
}

/// What is stored in a result is what the result says.
pub proof fn law_results_say_what_they_hold(
    p: history_diff::EntryDiffPreview,
    f: history_diff::EntryFullDiff,
    u: history_diff::UnsavedDiffResult,
    m: history::HistoryEntryMeta,
    e: history_file::IndexEntry,
)
    ensures
        p@.timestamp == p.timestamp && p@.total_changes == p.total_changes && p@.preview_lines
            == line_diff::diff_views(p.preview_lines@),
        f@.timestamp == f.timestamp && f@.diff_lines == line_diff::diff_views(f.diff_lines@),
        u@.saved_content == u.saved_content@ && u@.latest_content == u.latest_content@,
        u@.diff_lines == line_diff::diff_views(u.diff_lines@) && u@.unsaved_count
            == u.unsaved_count && u@.last_saved_timestamp == u.last_saved_timestamp,
        m@.entry_type == m.entry_type@ && m@.timestamp == m.timestamp && m@.file_path == m.file_path@
            && m@.saved == m.saved,
        e@.file_path == e.file_path@ && e@.entry_count == e.entry_count && e@.last_timestamp
            == e.last_timestamp && e@.has_unsaved == e.has_unsaved,
{
}

/// What may be absent or fail is read as it is.
pub proof fn law_outcomes_are_read_as_they_are(
    s: String,
    n: u32,
    error: HistoryError,
    p: history_diff::EntryDiffPreview,
    f: history_diff::EntryFullDiff,
    u: history_diff::UnsavedDiffResult,
    e: history_file::IndexEntry,
    kept: Vec<String>,
)
    ensures
        history::restored_text(Ok(s)) == Ok::<Seq<char>, HistoryError>(s@),
        history::restored_text(Err(error)) == Err::<Seq<char>, HistoryError>(error),
        history::state_view(Some((s, n))) == Some((s@, n as nat)),
        history::state_view(None) is None,
        history_diff::glance_view(Some(p)) == Some(p@),
        history_diff::glance_view(None) is None,
        history_diff::change_view(Ok(f)) == Ok::<FullDiffView, HistoryError>(f@),
        history_diff::change_view(Err(error)) == Err::<FullDiffView, HistoryError>(error),
        history_diff::unsaved_view(Some(u)) == Some(u@),
        history_diff::unsaved_view(None) is None,
        history_file::index_view(Some(e)) == Some(e@),
        history_file::index_view(None) is None,
        history_file::lines_content(Some(kept)) == Some(text::contents(kept@)),
        history_file::lines_content(None) is None,
{
}

/// Lists are read item by item, each at its place.
pub proof fn law_lists_are_read_in_order(
    entries: Seq<HistoryEntry>,
    diff: Seq<line_diff::DiffLine>,
    previews: Seq<history_diff::EntryDiffPreview>,
    metas: Seq<history::HistoryEntryMeta>,
    i: int,
)
    ensures
        history::views(entries).len() == entries.len(),
        0 <= i < entries.len() ==> history::views(entries)[i] == entries[i]@,
        line_diff::diff_views(diff).len() == diff.len(),
        0 <= i < diff.len() ==> line_diff::diff_views(diff)[i] == (diff[i].op@, diff[i].text@),
        history_diff::preview_views(previews).len() == previews.len(),
        0 <= i < previews.len() ==> history_diff::preview_views(previews)[i] == previews[i]@,
        history::meta_views(metas).len() == metas.len(),
        0 <= i < metas.len() ==> history::meta_views(metas)[i] == metas[i]@,
{
}

/// Which deltas have to decode: for the version at the end those after the last snapshot, for the
/// state of a history those after the first, and from a given text all of them. A snapshot asks for
/// nothing itself.
pub proof fn law_which_deltas_must_decode(
    start: Seq<char>,
    entries: Seq<EntryView>,
    t: u64,
    p: Seq<char>,
    body: Seq<char>,
    saved: bool,
)
    ensures
        history::ends_well(Seq::empty()) && history::runs_well(Seq::empty()) && history::runs(
            start,
            Seq::empty(),
        ),
        ({
            let after = entries.push(EntryView::Snapshot { t, p, c: body, saved });
            &&& history::ends_well(after)
            &&& history::runs_well(after) == history::runs_well(entries)
            &&& history::runs(start, after) == history::runs(start, entries)
        }),
        ({
            let after = entries.push(EntryView::Delta { t, p, d: body, saved });
            let here = match history::latest(entries) {
                Some(version) => delta::decodes(version.len(), body),
                None => true,
            };
            &&& history::ends_well(after) == (history::ends_well(entries) && here)
            &&& history::runs_well(after) == (history::runs_well(entries) && here)
            &&& history::runs(start, after) == (history::runs(start, entries) && delta::decodes(
                history::run_from(start, entries).len(),
                body,
            ))
        }),
{
    assert(entries.push(EntryView::Snapshot { t, p, c: body, saved }).drop_last() =~= entries);
    assert(entries.push(EntryView::Delta { t, p, d: body, saved }).drop_last() =~= entries);
}

/// Which deltas have to decode to see what is unsaved: none where nothing is, and else those since
/// the last snapshot at the save, and all since the save.
pub proof fn law_which_deltas_must_decode_since_the_save(entries: Seq<EntryView>, k: int)
    requires
        -1 <= k < entries.len(),
        k >= 0 ==> entries[k].saved(),
        forall|i: int| k < i < entries.len() ==> !(#[trigger] entries[i]).saved(),
    ensures
        k < 0 || k + 1 == entries.len() ==> history_diff::unsaved_runs(entries),
        0 <= k && k + 1 < entries.len() ==> {
            let saved = match history::latest(entries.take(k + 1)) {
                Some(version) => version,
                None => Seq::empty(),
            };
            history_diff::unsaved_runs(entries) <==> history::ends_well(entries.take(k + 1))
                && history::runs(saved, entries.skip(k + 1))
        },
{
    law_the_last_save_is_found(entries, k);
}

} // verus!
