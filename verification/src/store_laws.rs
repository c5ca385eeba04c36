//! What holds of the histories that a store has written.
use vstd::prelude::*;

use crate::delta;
use crate::history;
use crate::history::{EntryView, HistoryLine};
use crate::history_diff;
use crate::history_file;
use crate::history_file::Cleanup;
use crate::store;
use crate::store::{Change, Outcome, StoreView, TrackerView};

verus! {

/// The entries of a history; a history that was never written to has none.
pub open spec fn file_of(files: Map<Seq<char>, Seq<EntryView>>, hash: Seq<char>) -> Seq<EntryView> {
    if files.contains_key(hash) {
        files[hash]
    } else {
        Seq::empty()
    }
}

/// The histories once entries were written to them, in order.
pub open spec fn files_after(
    files: Map<Seq<char>, Seq<EntryView>>,
    written: Seq<(Seq<char>, EntryView)>,
) -> Map<Seq<char>, Seq<EntryView>>
    decreases written.len(),
{
    if written.len() == 0 {
        files
    } else {
        let before = files_after(files, written.drop_last());
        let (hash, e) = written.last();
        before.insert(hash, file_of(before, hash).push(e))
    }
}

/// A history that has begun ends with the version that its tracker has recorded last.
pub open spec fn ends_with_last(t: TrackerView, files: Map<Seq<char>, Seq<EntryView>>) -> bool {
    t.begun ==> history::latest(file_of(files, t.file_hash)) == Some(t.last)
}

/// A tracker is in step with its history: once begun, the history ends with the version that was
/// recorded last, and the tracker has counted the deltas since the last snapshot.
pub open spec fn in_step(t: TrackerView, files: Map<Seq<char>, Seq<EntryView>>) -> bool {
    let file = file_of(files, t.file_hash);
    if t.begun {
        history::latest(file) == Some(t.last) && t.deltas == history::deltas_since_snapshot(file)
    } else {
        t.deltas == 0
    }
}

/// A change that is recorded: its document is tracked and wanted, and not empty from the beginning.
pub open spec fn is_recorded(s: StoreView, c: Change) -> bool {
    &&& store::wanted(s.config, c.path)
    &&& s.trackers.contains_key(c.label)
    &&& s.trackers[c.label].begun || s.trackers[c.label].last.len() > 0 || c.content.len() > 0
}

proof fn lemma_one_written(
    files: Map<Seq<char>, Seq<EntryView>>,
    written: Seq<(Seq<char>, EntryView)>,
    hash: Seq<char>,
    e: EntryView,
)
    requires
        written == seq![(hash, e)],
    ensures
        files_after(files, written) == files.insert(hash, file_of(files, hash).push(e)),
{
    reveal_with_fuel(files_after, 2);
    assert(written.drop_last() =~= Seq::empty());
}

proof fn lemma_written_appends(
    files: Map<Seq<char>, Seq<EntryView>>,
    a: Seq<(Seq<char>, EntryView)>,
    b: Seq<(Seq<char>, EntryView)>,
)
    ensures
        files_after(files, a + b) == files_after(files_after(files, a), b),
    decreases b.len(),
{
    if b.len() == 0 {
        assert(a + b =~= a);
    } else {
        lemma_written_appends(files, a, b.drop_last());
        assert((a + b).drop_last() =~= a + b.drop_last());
    }
}

/// What becomes of the histories when one entry is written.
pub proof fn lemma_one_appended(
    files: Map<Seq<char>, Seq<EntryView>>,
    written: Seq<(Seq<char>, EntryView)>,
    hash: Seq<char>,
    e: EntryView,
)
    requires
        written == seq![(hash, e)],
    ensures
        files_after(files, written) == files.insert(hash, file_of(files, hash).push(e)),
{
    lemma_one_written(files, written, hash, e);
}

/// Entries that are written in two goes are written in order.
pub proof fn lemma_appended(
    files: Map<Seq<char>, Seq<EntryView>>,
    a: Seq<(Seq<char>, EntryView)>,
    b: Seq<(Seq<char>, EntryView)>,
)
    ensures
        files_after(files, a + b) == files_after(files_after(files, a), b),
{
    lemma_written_appends(files, a, b);
}

proof fn lemma_snapshot_ends(file: Seq<EntryView>, e: EntryView)
    ensures
        e matches EntryView::Snapshot { c, .. } ==> history::latest(file.push(e)) == Some(c)
            && history::deltas_since_snapshot(file.push(e)) == 0,
        file.push(e).drop_last() == file,
{
    assert(file.push(e).drop_last() =~= file);
}

proof fn lemma_later_version(
    s: StoreView,
    c: Change,
    files: Map<Seq<char>, Seq<EntryView>>,
)
    requires
        s.trackers.contains_key(c.label),
        s.trackers[c.label].begun,
        ends_with_last(s.trackers[c.label], files),
        s.trackers[c.label].last != c.content && !store::has_moved(s.trackers[c.label], c) ==> (
        c.made matches Some(d) && delta::leads_to(d, s.trackers[c.label].last, c.content)),
    ensures
        ({
            let o = store::later_version(s, c);
            let t = o.store.trackers[c.label];
            let file = file_of(files_after(files, o.written), t.file_hash);
            &&& t.begun
            &&& t.last == c.content
            &&& ends_with_last(t, files_after(files, o.written))
            &&& in_step(s.trackers[c.label], files) ==> in_step(t, files_after(files, o.written))
            &&& c.is_saved ==> file.len() > 0 && file.last() == c.snapshot(c.content, true)
        }),
{
    let t = s.trackers[c.label];
    let o = store::later_version(s, c);
    let file = file_of(files, t.file_hash);
    if c.content == t.last {
        if c.is_saved {
            let e = c.snapshot(c.content, true);
            lemma_one_written(files, o.written, t.file_hash, e);
            lemma_snapshot_ends(file, e);
        }
    } else if store::has_moved(t, c) {
        let e = c.snapshot(c.content, c.is_saved);
        lemma_one_written(files, o.written, c.path_id, e);
        lemma_snapshot_ends(file_of(files, c.path_id), e);
    } else {
        let d = c.made->0;
        let e = c.delta(d);
        let one = seq![(t.file_hash, e)];
        lemma_one_written(files, one, t.file_hash, e);
        lemma_snapshot_ends(file, e);
        if store::snapshot_due(s, c) {
            let e2 = c.snapshot(c.content, c.is_saved);
            let two = seq![(t.file_hash, e2)];
            assert(o.written =~= one + two);
            lemma_written_appends(files, one, two);
            lemma_one_written(files_after(files, one), two, t.file_hash, e2);
            lemma_snapshot_ends(file.push(e), e2);
        } else {
            assert(o.written =~= one);
        }
    }
}

/// A history that ends with the version that was recorded last goes on to do so with every change,
/// and a tracker that is in step with it stays in step.
pub proof fn law_recording_stays_in_step(
    s: StoreView,
    o: Outcome,
    c: Change,
    files: Map<Seq<char>, Seq<EntryView>>,
)
    requires
        s.trackers.contains_key(c.label),
        ends_with_last(s.trackers[c.label], files),
        store::records(s, o, c),
    ensures
        ends_with_last(
            o.store.trackers[c.label],
            files_after(files, o.written),
        ),
        in_step(s.trackers[c.label], files) ==> in_step(
            o.store.trackers[c.label],
            files_after(files, o.written),
        ),
{
    if is_recorded(s, c) {
        lemma_recorded(s, o, c, files);
    }
}

proof fn lemma_recorded(s: StoreView, o: Outcome, c: Change, files: Map<Seq<char>, Seq<EntryView>>)
    requires
        is_recorded(s, c),
        ends_with_last(s.trackers[c.label], files),
        store::records(s, o, c),
    ensures
        ({
            let t = o.store.trackers[c.label];
            let file = file_of(files_after(files, o.written), t.file_hash);
            &&& t.begun
            &&& t.last == c.content
            &&& ends_with_last(t, files_after(files, o.written))
            &&& in_step(s.trackers[c.label], files) ==> in_step(t, files_after(files, o.written))
            &&& c.is_saved ==> file.len() > 0 && file.last() == c.snapshot(c.content, true)
        }),
{
    let t = s.trackers[c.label];
    if t.begun {
        lemma_later_version(s, c, files);
    } else if t.last.len() == 0 {
        let e = c.snapshot(c.content, c.is_saved);
        lemma_one_written(files, o.written, t.file_hash, e);
        lemma_snapshot_ends(file_of(files, t.file_hash), e);
    } else {
        let opened = store::opening_version(s, c);
        let e = c.snapshot(t.last, true);
        lemma_one_written(files, opened.written, t.file_hash, e);
        lemma_snapshot_ends(file_of(files, t.file_hash), e);
        let then = store::later_version(opened.store, c);
        lemma_later_version(opened.store, c, files_after(files, opened.written));
        lemma_written_appends(files, opened.written, then.written);
    }
}

/// What was recorded is what is restored: after a change is recorded, the end of the document's
/// history gives back the content of the change.
pub proof fn law_recorded_version_is_restored(
    s: StoreView,
    o: Outcome,
    c: Change,
    files: Map<Seq<char>, Seq<EntryView>>,
)
    requires
        is_recorded(s, c),
        ends_with_last(s.trackers[c.label], files),
        store::records(s, o, c),
    ensures
        ({
            let t = o.store.trackers[c.label];
            history::restored(file_of(files_after(files, o.written), t.file_hash), 0) == Ok::<
                Seq<char>,
                history::HistoryError,
            >(c.content)
        }),
{
    lemma_recorded(s, o, c, files);
    let t = o.store.trackers[c.label];
    let file = file_of(files_after(files, o.written), t.file_hash);
    history::law_zero_restores_the_latest(file);
}

/// Where no entry of the history is later than the change, the version at the time of the change is
/// the content of the change.
pub proof fn law_version_at_its_time_is_restored(
    s: StoreView,
    o: Outcome,
    c: Change,
    files: Map<Seq<char>, Seq<EntryView>>,
)
    requires
        is_recorded(s, c),
        ends_with_last(s.trackers[c.label], files),
        store::records(s, o, c),
        c.now > 0,
        ({
            let file = file_of(
                files_after(files, o.written),
                o.store.trackers[c.label].file_hash,
            );
            forall|i: int| 0 <= i < file.len() ==> (#[trigger] file[i]).time() <= c.now
        }),
    ensures
        ({
            let t = o.store.trackers[c.label];
            history::restored(file_of(files_after(files, o.written), t.file_hash), c.now) == Ok::<
                Seq<char>,
                history::HistoryError,
            >(c.content)
        }),
{
    lemma_recorded(s, o, c, files);
    let t = o.store.trackers[c.label];
    let file = file_of(files_after(files, o.written), t.file_hash);
    history::lemma_up_to(file, c.now, file.len());
    assert(file.take(file.len() as int) =~= file);
}

/// A save is a whole version, and leaves nothing unsaved: neither in the history nor in the index.
pub proof fn law_a_save_leaves_nothing_unsaved(
    s: StoreView,
    o: Outcome,
    c: Change,
    files: Map<Seq<char>, Seq<EntryView>>,
    comparable: bool,
)
    requires
        is_recorded(s, c),
        ends_with_last(s.trackers[c.label], files),
        store::records(s, o, c),
        c.is_saved,
    ensures
        ({
            let t = o.store.trackers[c.label];
            let file = file_of(files_after(files, o.written), t.file_hash);
            &&& file.len() > 0
            &&& file.last() == c.snapshot(c.content, true)
            &&& history_diff::unsaved(file, comparable) is None
            &&& !store::indexed(o.store.index, t.file_hash).has_unsaved
        }),
{
    lemma_recorded(s, o, c, files);
}

/// An edit that was not saved shows in the index.
pub proof fn law_an_unsaved_edit_shows(s: StoreView, o: Outcome, c: Change)
    requires
        is_recorded(s, c),
        store::records(s, o, c),
        !c.is_saved,
        c.content != s.trackers[c.label].last,
    ensures
        ({
            store::indexed(o.store.index, o.store.trackers[c.label].file_hash).has_unsaved
        }),
{
}

/// Versions are whole often enough: fewer deltas than the interval follow on a snapshot.
pub proof fn law_snapshots_keep_the_interval(s: StoreView, c: Change)
    requires
        s.trackers.contains_key(c.label),
        s.trackers[c.label].deltas == 0 || s.trackers[c.label].deltas < s.config.snapshot_interval,
    ensures
        ({
            let t = store::recorded(s, c).store.trackers[c.label];
            t.deltas == 0 || t.deltas < s.config.snapshot_interval
        }),
{
}

/// A change touches no other window's tracker, and no history but the one that the tracker had and
/// the one of the document's path.
pub proof fn law_recording_touches_nothing_else(
    s: StoreView,
    c: Change,
    files: Map<Seq<char>, Seq<EntryView>>,
    label: Seq<char>,
    hash: Seq<char>,
)
    requires
        s.trackers.contains_key(c.label),
        label != c.label,
        hash != s.trackers[c.label].file_hash,
        hash != c.path_id,
    ensures
        ({
            let o = store::recorded(s, c);
            &&& o.store.config == s.config
            &&& o.store.trackers.contains_key(label) == s.trackers.contains_key(label)
            &&& s.trackers.contains_key(label) ==> o.store.trackers[label] == s.trackers[label]
            &&& o.store.index.contains_key(hash) == s.index.contains_key(hash)
            &&& s.index.contains_key(hash) ==> o.store.index[hash] == s.index[hash]
            &&& file_of(files_after(files, o.written), hash) == file_of(files, hash)
        }),
{
    let o = store::recorded(s, c);
    lemma_other_file(files, o.written, hash);
}

proof fn lemma_other_file(
    files: Map<Seq<char>, Seq<EntryView>>,
    written: Seq<(Seq<char>, EntryView)>,
    hash: Seq<char>,
)
    requires
        forall|i: int| 0 <= i < written.len() ==> (#[trigger] written[i]).0 != hash,
    ensures
        file_of(files_after(files, written), hash) == file_of(files, hash),
    decreases written.len(),
{
    if written.len() > 0 {
        let front = written.drop_last();
        assert forall|i: int| 0 <= i < front.len() implies (#[trigger] front[i]).0 != hash by {
            assert(written[i].0 != hash);
        }
        assert(written.last().0 != hash);
        lemma_other_file(files, front, hash);
    }
}

/// The index counts the entries of every history.
pub open spec fn index_counts(s: StoreView, files: Map<Seq<char>, Seq<EntryView>>) -> bool {
    forall|hash: Seq<char>|
        (#[trigger] store::indexed(s.index, hash)).entry_count == file_of(files, hash).len()
}

proof fn lemma_later_counts(s: StoreView, c: Change, files: Map<Seq<char>, Seq<EntryView>>)
    requires
        s.trackers.contains_key(c.label),
        index_counts(s, files),
    ensures
        index_counts(
            store::later_version(s, c).store,
            files_after(files, store::later_version(s, c).written),
        ),
{
    let t = s.trackers[c.label];
    let o = store::later_version(s, c);
    let after = files_after(files, o.written);
    if c.content == t.last {
        if c.is_saved {
            lemma_one_written(files, o.written, t.file_hash, c.snapshot(c.content, true));
        }
    } else if store::has_moved(t, c) {
        lemma_one_written(files, o.written, c.path_id, c.snapshot(c.content, c.is_saved));
    } else if c.made is Some {
        let e = c.delta(c.made->0);
        let one = seq![(t.file_hash, e)];
        lemma_one_written(files, one, t.file_hash, e);
        if store::snapshot_due(s, c) {
            let e2 = c.snapshot(c.content, c.is_saved);
            let two = seq![(t.file_hash, e2)];
            assert(o.written =~= one + two);
            lemma_written_appends(files, one, two);
            lemma_one_written(files_after(files, one), two, t.file_hash, e2);
        } else {
            assert(o.written =~= one);
        }
    }
    assert forall|hash: Seq<char>|
        (#[trigger] store::indexed(o.store.index, hash)).entry_count == file_of(after, hash).len() by {
        assert(store::indexed(s.index, hash).entry_count == file_of(files, hash).len());
    }
}

/// An index that counts the entries of every history goes on to do so, whatever is recorded.
pub proof fn law_recording_keeps_the_count(
    s: StoreView,
    c: Change,
    files: Map<Seq<char>, Seq<EntryView>>,
)
    requires
        index_counts(s, files),
    ensures
        index_counts(store::recorded(s, c).store, files_after(files, store::recorded(s, c).written)),
{
    let o = store::recorded(s, c);
    if is_recorded(s, c) {
        let t = s.trackers[c.label];
        if t.begun {
            lemma_later_counts(s, c, files);
        } else if t.last.len() == 0 {
            lemma_one_written(files, o.written, t.file_hash, c.snapshot(c.content, c.is_saved));
            let after = files_after(files, o.written);
            assert forall|hash: Seq<char>|
                (#[trigger] store::indexed(o.store.index, hash)).entry_count == file_of(
                    after,
                    hash,
                ).len() by {
                assert(store::indexed(s.index, hash).entry_count == file_of(files, hash).len());
            }
        } else {
            let opened = store::opening_version(s, c);
            lemma_one_written(files, opened.written, t.file_hash, c.snapshot(t.last, true));
            let after = files_after(files, opened.written);
            assert forall|hash: Seq<char>|
                (#[trigger] store::indexed(opened.store.index, hash)).entry_count == file_of(
                    after,
                    hash,
                ).len() by {
                assert(store::indexed(s.index, hash).entry_count == file_of(files, hash).len());
            }
            lemma_later_counts(opened.store, c, after);
            lemma_written_appends(
                files,
                opened.written,
                store::later_version(opened.store, c).written,
            );
        }
    }
}

/// A tracker begins in step with the history that was read for it and written to, and the index
/// goes on to count.
pub proof fn law_tracking_begins_in_step(
    s: StoreView,
    label: Seq<char>,
    content: Seq<char>,
    path: Option<Seq<char>>,
    id: Seq<char>,
    files: Map<Seq<char>, Seq<EntryView>>,
    now: u64,
)
    requires
        store::wanted(s.config, path),
    ensures
        ({
            let o = store::tracking(s, label, content, path, id, file_of(files, id), now);
            let after = files_after(files, o.written);
            &&& o.store.trackers.contains_key(label)
            &&& in_step(o.store.trackers[label], after)
            &&& path is Some ==> !store::indexed(o.store.index, id).has_unsaved
            &&& index_counts(s, files) ==> index_counts(o.store, after)
        }),
{
    let o = store::tracking(s, label, content, path, id, file_of(files, id), now);
    lemma_tracking_writes(s, label, content, path, id, files, now);
    if index_counts(s, files) {
        let after = files_after(files, o.written);
        assert forall|hash: Seq<char>|
            (#[trigger] store::indexed(o.store.index, hash)).entry_count == file_of(after, hash).len() by {
            assert(store::indexed(s.index, hash).entry_count == file_of(files, hash).len());
        }
    }
}

proof fn lemma_tracking_writes(
    s: StoreView,
    label: Seq<char>,
    content: Seq<char>,
    path: Option<Seq<char>>,
    id: Seq<char>,
    files: Map<Seq<char>, Seq<EntryView>>,
    now: u64,
)
    requires
        store::wanted(s.config, path),
    ensures
        ({
            let o = store::tracking(s, label, content, path, id, file_of(files, id), now);
            let after = files_after(files, o.written);
            if store::opening_due(content, file_of(files, id)) {
                &&& o.written.len() == 1
                &&& o.written[0].0 == id
                &&& o.written[0].1 is Snapshot
                &&& after == files.insert(id, file_of(files, id).push(o.written[0].1))
                &&& history::latest(file_of(after, id)) == Some(content)
                &&& history::deltas_since_snapshot(file_of(after, id)) == 0
            } else {
                after == files
            }
        }),
{
    let o = store::tracking(s, label, content, path, id, file_of(files, id), now);
    if store::opening_due(content, file_of(files, id)) {
        let e = o.written[0].1;
        lemma_one_written(files, o.written, id, e);
        lemma_snapshot_ends(file_of(files, id), e);
    }
}

/// A document that is opened is in its history: once it is tracked, the end of the history gives
/// back the content with which it was opened, unless that was empty.
pub proof fn law_opened_version_is_restored(
    s: StoreView,
    label: Seq<char>,
    content: Seq<char>,
    path: Option<Seq<char>>,
    id: Seq<char>,
    files: Map<Seq<char>, Seq<EntryView>>,
    now: u64,
)
    requires
        store::wanted(s.config, path),
        content.len() > 0,
    ensures
        ({
            let o = store::tracking(s, label, content, path, id, file_of(files, id), now);
            &&& o.store.trackers[label].begun
            &&& history::restored(file_of(files_after(files, o.written), id), 0) == Ok::<
                Seq<char>,
                history::HistoryError,
            >(content)
        }),
{
    let o = store::tracking(s, label, content, path, id, file_of(files, id), now);
    lemma_tracking_writes(s, label, content, path, id, files, now);
    history::law_zero_restores_the_latest(file_of(files_after(files, o.written), id));
}

/// To track a document once more, with the content that was tracked, writes nothing.
pub proof fn law_tracking_again_writes_nothing(
    s: StoreView,
    label: Seq<char>,
    content: Seq<char>,
    path: Option<Seq<char>>,
    id: Seq<char>,
    files: Map<Seq<char>, Seq<EntryView>>,
    now: u64,
    again: u64,
)
    ensures
        ({
            let o = store::tracking(s, label, content, path, id, file_of(files, id), now);
            let file = file_of(files_after(files, o.written), id);
            store::tracking(o.store, label, content, path, id, file, again).written.len() == 0
        }),
{
    if store::wanted(s.config, path) {
        lemma_tracking_writes(s, label, content, path, id, files, now);
    }
}

/// An index that is made from the histories on disk counts the entries of each.
pub proof fn law_built_index_counts(files: Seq<(Seq<char>, Seq<EntryView>)>, i: int)
    requires
        0 <= i < files.len(),
        forall|j: int, k: int|
            0 <= j < k < files.len() ==> (#[trigger] files[j]).0 != (#[trigger] files[k]).0,
    ensures
        store::indexed(store::index_of_files(files), files[i].0).entry_count == files[i].1.len(),
        files[i].1.len() > 0 ==> store::index_of_files(files).contains_key(files[i].0)
            && history_file::summary(files[i].1) == Some(
            store::index_of_files(files)[files[i].0],
        ),
    decreases files.len(),
{
    let front = files.drop_last();
    if i < files.len() - 1 {
        assert(front[i] == files[i]);
        assert(files[i].0 != files.last().0);
        assert forall|j: int, k: int| 0 <= j < k < front.len() implies (#[trigger] front[j]).0 != (
        #[trigger] front[k]).0 by {
            assert(files[j].0 != files[k].0);
        }
        law_built_index_counts(front, i);
    } else if files.last().1.len() == 0 {
        lemma_not_built(front, files.last().0);
        assert forall|j: int| 0 <= j < front.len() implies (#[trigger] front[j]).0 != files.last().0 by {
            assert(files[j].0 != files[files.len() - 1].0);
        }
    }
}

proof fn lemma_not_built(files: Seq<(Seq<char>, Seq<EntryView>)>, hash: Seq<char>)
    ensures
        (forall|j: int| 0 <= j < files.len() ==> (#[trigger] files[j]).0 != hash)
            ==> !store::index_of_files(files).contains_key(hash),
    decreases files.len(),
{
    if files.len() > 0 {
        let front = files.drop_last();
        lemma_not_built(front, hash);
        if forall|j: int| 0 <= j < files.len() ==> (#[trigger] files[j]).0 != hash {
            assert forall|j: int| 0 <= j < front.len() implies (#[trigger] front[j]).0 != hash by {
                assert(files[j].0 != hash);
            }
            assert(files[files.len() - 1].0 != hash);
        }
    }
}

/// To record the same content once more, without a save, writes nothing and changes nothing.
pub proof fn law_recording_again_writes_nothing(s: StoreView, c: Change, again: Change)
    requires
        again.label == c.label,
        again.content == c.content,
        again.path == c.path,
        !again.is_saved,
    ensures
        ({
            let o = store::recorded(s, c);
            let o2 = store::recorded(o.store, again);
            o2.store == o.store && o2.written.len() == 0
        }),
{
}

/// A document that is tracked no longer leaves the trackers as if it had never been tracked.
pub proof fn law_stopping_undoes_tracking(
    s: StoreView,
    label: Seq<char>,
    content: Seq<char>,
    path: Option<Seq<char>>,
    id: Seq<char>,
    entries: Seq<EntryView>,
    now: u64,
)
    ensures
        ({
            let after = store::tracking(s, label, content, path, id, entries, now).store;
            &&& after.trackers.remove(label) == s.trackers.remove(label)
            &&& after.config == s.config
        }),
{
    let after = store::tracking(s, label, content, path, id, entries, now).store;
    assert(after.trackers.remove(label) =~= s.trackers.remove(label));
}

/// A history that was deleted, or from which unsaved entries were dropped, holds nothing unsaved.
pub proof fn law_dropped_is_not_unsaved(
    index: Map<Seq<char>, history_file::IndexView>,
    hash: Seq<char>,
    count: nat,
)
    ensures
        !store::indexed(index.remove(hash), hash).has_unsaved,
        !store::indexed(store::recounted(index, hash, count, true), hash).has_unsaved,
{
}

/// The histories once old entries were dropped from one of them.
pub open spec fn files_cleaned(
    files: Map<Seq<char>, Seq<EntryView>>,
    hash: Seq<char>,
    file: Seq<HistoryLine>,
    c: Cleanup,
    cutoff: u64,
) -> Map<Seq<char>, Seq<EntryView>> {
    match c {
        Cleanup::Leave => files,
        Cleanup::Remove => files.remove(hash),
        Cleanup::Rewrite(_) => files.insert(
            hash,
            history::entries_in(history_file::kept_lines(file, cutoff)),
        ),
    }
}

/// An index that counts the entries of every history goes on to do so when old entries are dropped.
pub proof fn law_cleanup_keeps_the_count(
    s: StoreView,
    files: Map<Seq<char>, Seq<EntryView>>,
    hash: Seq<char>,
    file: Seq<HistoryLine>,
    c: Cleanup,
    cutoff: u64,
)
    requires
        index_counts(s, files),
        file_of(files, hash) == history::entries_in(file),
        history_file::cleans(c, file, cutoff),
    ensures
        index_counts(
            StoreView { index: store::index_cleaned(s.index, hash, c), ..s },
            files_cleaned(files, hash, file, c, cutoff),
        ),
{
    let after = StoreView { index: store::index_cleaned(s.index, hash, c), ..s };
    let files_after_cleanup = files_cleaned(files, hash, file, c, cutoff);
    history_file::law_cleanup_keeps_base_and_recent(file, cutoff);
    history_file::lemma_kept_bound(history::entries_in(file), cutoff);
    assert(store::indexed(s.index, hash).entry_count == file_of(files, hash).len());
    if let Cleanup::Rewrite(lines) = c {
        assert(lines@.len() == crate::text::contents(lines@).len());
        assert(history_file::texts(history_file::kept_lines(file, cutoff)).len()
            == history_file::kept_lines(file, cutoff).len());
    }
    assert forall|h: Seq<char>|
        (#[trigger] store::indexed(after.index, h)).entry_count == file_of(
            files_after_cleanup,
            h,
        ).len() by {
        assert(store::indexed(s.index, h).entry_count == file_of(files, h).len());
    }
}

/// Where every line up to the last save that is not blank holds an entry, an index that counts the
/// entries of a history goes on to do so when the entries after that save are dropped.
pub proof fn law_dropping_unsaved_keeps_the_count(
    index: Map<Seq<char>, history_file::IndexView>,
    hash: Seq<char>,
    file: Seq<HistoryLine>,
)
    requires
        index.contains_key(hash),
        history_file::unsaved_dropped(file) is Some,
        ({
            let part = history_file::saved_part(file);
            forall|i: int|
                0 <= i < part.len() ==> (history::entry_in(#[trigger] part[i]) is Some
                    || crate::lines::is_blank(part[i].text@))
        }),
    ensures
        ({
            let kept = history_file::unsaved_dropped(file)->0;
            let part = history_file::nonblank(history_file::saved_part(file));
            store::indexed(
                store::recounted(index, hash, kept.len(), true),
                hash,
            ).entry_count == history::entries_in(part).len()
        }),
{
    history_file::lemma_nonblank_counts(history_file::saved_part(file));
    let part = history_file::nonblank(history_file::saved_part(file));
    assert(history_file::texts(part).len() == part.len());
}

/// A history that can be run from its beginning: its first entry is a snapshot, and every delta
/// decodes where it is applied.
pub open spec fn well_kept(file: Seq<EntryView>) -> bool {
    history::runs_well(file) && (file.len() == 0 || file[0] is Snapshot)
}

/// All histories can be run from their beginnings.
pub open spec fn all_well_kept(files: Map<Seq<char>, Seq<EntryView>>) -> bool {
    forall|hash: Seq<char>| well_kept(#[trigger] file_of(files, hash))
}

/// Of a history that is well kept, every version can be restored, and every change can be shown.
pub proof fn law_well_kept_histories_answer(file: Seq<EntryView>, t: u64)
    requires
        well_kept(file),
    ensures
        history::ends_well(history::up_to(file, history::end_time(t))),
        history::runs(Seq::empty(), file),
        history::runs(Seq::empty(), history_diff::entries_through(file, t)),
        history_diff::unsaved_runs(file),
{
    if file.len() > 0 {
        history::lemma_run_is_latest(file);
        lemma_up_to_is_a_beginning(file, history::end_time(t));
        let n = history::up_to(file, history::end_time(t)).len() as int;
        history::lemma_runs_well_no_further(file, n);
        history::lemma_runs_well_ends_well(file.take(n));
        let through = history_diff::entries_through(file, t);
        history_diff::lemma_entries_before_bound(file, t);
        history::lemma_runs_no_further(Seq::empty(), file, through.len() as int);
        assert(file.take(through.len() as int) =~= through);
        if let Some(k) = history_diff::last_saved(file) {
            if k + 1 < file.len() {
                history_diff::lemma_last_saved_range(file);
                let head = file.take(k + 1);
                let rest = file.skip(k + 1);
                assert(head[0] == file[0]);
                assert(file =~= head + rest);
                history::lemma_run_is_latest(head);
                history::lemma_runs_well_no_further(file, k + 1);
                history::lemma_runs_well_ends_well(head);
                history::lemma_rest_runs(head, rest);
            }
        }
    } else {
        assert(history_diff::entries_through(file, t) =~= file);
    }
}

proof fn lemma_up_to_is_a_beginning(file: Seq<EntryView>, target: u64)
    ensures
        history::up_to(file, target).len() <= file.len(),
        history::up_to(file, target) == file.take(history::up_to(file, target).len() as int),
    decreases file.len(),
{
    if file.len() == 0 || file[0].time() > target {
        assert(history::up_to(file, target) =~= file.take(0));
    } else {
        let rest = history::up_to(file.skip(1), target);
        lemma_up_to_is_a_beginning(file.skip(1), target);
        assert(seq![file[0]] + file.skip(1).take(rest.len() as int) =~= file.take(
            rest.len() as int + 1,
        ));
    }
}

proof fn lemma_one_more_well_kept(
    files: Map<Seq<char>, Seq<EntryView>>,
    hash: Seq<char>,
    e: EntryView,
)
    requires
        all_well_kept(files),
        e is Snapshot || (history::latest(file_of(files, hash)) matches Some(version) && e.applies(
            version,
        )),
    ensures
        all_well_kept(files.insert(hash, file_of(files, hash).push(e))),
{
    let file = file_of(files, hash);
    let after = files.insert(hash, file.push(e));
    assert(well_kept(file));
    assert(file.push(e).drop_last() =~= file);
    assert forall|h: Seq<char>| well_kept(#[trigger] file_of(after, h)) by {
        assert(well_kept(file_of(files, h)));
        if h == hash && file.len() > 0 {
            assert(file.push(e)[0] == file[0]);
        }
    }
}

proof fn lemma_later_well_kept(s: StoreView, c: Change, files: Map<Seq<char>, Seq<EntryView>>)
    requires
        all_well_kept(files),
        s.trackers.contains_key(c.label),
        s.trackers[c.label].begun,
        ends_with_last(s.trackers[c.label], files),
        c.made matches Some(d) ==> s.trackers[c.label].last != c.content && !store::has_moved(
            s.trackers[c.label],
            c,
        ) ==> delta::leads_to(d, s.trackers[c.label].last, c.content),
    ensures
        all_well_kept(files_after(files, store::later_version(s, c).written)),
{
    let t = s.trackers[c.label];
    let o = store::later_version(s, c);
    if c.content == t.last {
        if c.is_saved {
            let e = c.snapshot(c.content, true);
            lemma_one_written(files, o.written, t.file_hash, e);
            lemma_one_more_well_kept(files, t.file_hash, e);
        }
    } else if store::has_moved(t, c) {
        let e = c.snapshot(c.content, c.is_saved);
        lemma_one_written(files, o.written, c.path_id, e);
        lemma_one_more_well_kept(files, c.path_id, e);
    } else if c.made is Some {
        let e = c.delta(c.made->0);
        let one = seq![(t.file_hash, e)];
        lemma_one_written(files, one, t.file_hash, e);
        lemma_one_more_well_kept(files, t.file_hash, e);
        if store::snapshot_due(s, c) {
            let e2 = c.snapshot(c.content, c.is_saved);
            let two = seq![(t.file_hash, e2)];
            let between = files_after(files, one);
            assert(o.written =~= one + two);
            lemma_written_appends(files, one, two);
            lemma_one_written(between, two, t.file_hash, e2);
            lemma_one_more_well_kept(between, t.file_hash, e2);
        } else {
            assert(o.written =~= one);
        }
    }
}

/// Histories that are well kept stay so, whatever is recorded.
pub proof fn law_recording_keeps_histories_well(
    s: StoreView,
    o: Outcome,
    c: Change,
    files: Map<Seq<char>, Seq<EntryView>>,
)
    requires
        all_well_kept(files),
        s.trackers.contains_key(c.label) ==> ends_with_last(s.trackers[c.label], files),
        store::records(s, o, c),
    ensures
        all_well_kept(files_after(files, o.written)),
{
    if is_recorded(s, c) {
        let t = s.trackers[c.label];
        if t.begun {
            lemma_later_well_kept(s, c, files);
        } else if t.last.len() == 0 {
            let e = c.snapshot(c.content, c.is_saved);
            lemma_one_written(files, o.written, t.file_hash, e);
            lemma_one_more_well_kept(files, t.file_hash, e);
        } else {
            let opened = store::opening_version(s, c);
            let e = c.snapshot(t.last, true);
            lemma_one_written(files, opened.written, t.file_hash, e);
            lemma_one_more_well_kept(files, t.file_hash, e);
            lemma_snapshot_ends(file_of(files, t.file_hash), e);
            let between = files_after(files, opened.written);
            lemma_later_well_kept(opened.store, c, between);
            lemma_written_appends(
                files,
                opened.written,
                store::later_version(opened.store, c).written,
            );
        }
    }
}

/// Histories that are well kept stay so when a document is tracked.
pub proof fn law_tracking_keeps_histories_well(
    s: StoreView,
    label: Seq<char>,
    content: Seq<char>,
    path: Option<Seq<char>>,
    id: Seq<char>,
    files: Map<Seq<char>, Seq<EntryView>>,
    now: u64,
)
    requires
        all_well_kept(files),
    ensures
        ({
            let o = store::tracking(s, label, content, path, id, file_of(files, id), now);
            all_well_kept(files_after(files, o.written))
        }),
{
    let o = store::tracking(s, label, content, path, id, file_of(files, id), now);
    if store::wanted(s.config, path) {
        lemma_tracking_writes(s, label, content, path, id, files, now);
        if store::opening_due(content, file_of(files, id)) {
            lemma_one_more_well_kept(files, id, o.written[0].1);
        }
    }
}

} // verus!
