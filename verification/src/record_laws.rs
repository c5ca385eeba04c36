//! What is recorded of a change, entry by entry, and what the index says after it.
use vstd::prelude::*;

use crate::delta;
use crate::history;
use crate::history::EntryView;
use crate::history_diff;
use crate::history_file;
use crate::history_file::{Cleanup, IndexView};
use crate::paths;
use crate::store;
use crate::store::{Change, HistoryConfig, Outcome, StoreView, StoredIndex};
use crate::store_laws;
use crate::text;

verus! {

/// A document is recorded where recording is on, unless it has no path and such documents are left
/// out, or its path lies on the network and such paths are.
pub proof fn law_what_is_recorded(config: HistoryConfig, p: Seq<char>)
    ensures
        !config.enabled ==> !store::wanted(config, None) && !store::wanted(config, Some(p)),
        config.enabled ==> store::wanted(config, None) == config.include_temp_files,
        config.enabled && paths::on_network(p) ==> store::wanted(config, Some(p))
            == config.include_network_paths,
        config.enabled && !paths::on_network(p) ==> store::wanted(config, Some(p)),
{
}

/// A change of a document that is not recorded, or not followed, does nothing and needs no delta.
pub proof fn law_other_changes_do_nothing(s: StoreView, c: Change)
    requires
        !store::wanted(s.config, c.path) || !s.trackers.contains_key(c.label),
    ensures
        store::recorded(s, c).store == s,
        store::recorded(s, c).written.len() == 0,
        store::delta_base(s, c) is None,
{
}

/// The version with which the document was opened is not in its history yet, and there is one.
pub open spec fn opening_missing(s: StoreView, c: Change) -> bool {
    !s.trackers[c.label].begun && s.trackers[c.label].last.len() > 0
}

/// The document was last recorded, and is kept under another path by now, and has changed.
pub open spec fn goes_elsewhere(s: StoreView, c: Change) -> bool {
    let t = s.trackers[c.label];
    (t.begun || t.last.len() > 0) && c.content != t.last && c.path is Some && c.path_id
        != t.file_hash
}

/// Every entry that a change writes has the time and the path of the change. The opening version,
/// where it was missing, comes first, and counts as saved. Every other entry is saved exactly where
/// the change was a save, holds the content of the change if it is a snapshot, and leads to it from
/// the version before if it is a delta.
pub proof fn law_entries_carry_their_change(s: StoreView, o: Outcome, c: Change, i: int)
    requires
        store::records(s, o, c),
        0 <= i < o.written.len(),
    ensures
        ({
            let t = s.trackers[c.label];
            let (hash, e) = o.written[i];
            &&& e.time() == c.now
            &&& c.path matches Some(p) ==> e.path() == p
            &&& c.path is None ==> e.path().len() == 0
            &&& i == 0 && opening_missing(s, c) ==> {
                &&& hash == t.file_hash
                &&& e.saved()
                &&& e matches EntryView::Snapshot { c: version, .. } && version == t.last
            }
            &&& i > 0 || !opening_missing(s, c) ==> {
                &&& e.saved() == c.is_saved
                &&& hash == if goes_elsewhere(s, c) {
                    c.path_id
                } else {
                    t.file_hash
                }
                &&& e matches EntryView::Snapshot { c: version, .. } ==> version == c.content
                &&& e matches EntryView::Delta { d, .. } ==> t.last != c.content && delta::leads_to(
                    d,
                    t.last,
                    c.content,
                )
            }
        }),
{
}

/// How many entries a change writes, and of which kind, behind the opening version where that was
/// missing: none where nothing changed and nothing was saved; a snapshot where a document is saved
/// unchanged, goes to another path, or was empty so far; and else a delta, which a snapshot follows
/// where the document was saved or the interval is reached.
pub proof fn law_kinds_of_entries(s: StoreView, o: Outcome, c: Change)
    requires
        store::records(s, o, c),
        store::wanted(s.config, c.path),
        s.trackers.contains_key(c.label),
    ensures
        ({
            let t = s.trackers[c.label];
            let first: int = if opening_missing(s, c) {
                1
            } else {
                0
            };
            let n = o.written.len() - first;
            &&& first == 1 ==> o.written.len() > 0 && o.written[0].1 is Snapshot
            &&& c.content == t.last && !c.is_saved ==> n == 0
            &&& !t.begun && t.last.len() == 0 && c.content.len() == 0 ==> n == 0
            &&& !t.begun && t.last.len() == 0 && c.content.len() > 0 ==> n == 1
                && o.written[first].1 is Snapshot
            &&& (t.begun || t.last.len() > 0) && c.content == t.last && c.is_saved ==> n == 1
                && o.written[first].1 is Snapshot
            &&& goes_elsewhere(s, c) ==> n == 1 && o.written[first].1 is Snapshot
            &&& (t.begun || t.last.len() > 0) && c.content != t.last && !goes_elsewhere(s, c) ==> {
                &&& o.written[first].1 is Delta
                &&& c.is_saved || t.deltas + 1 >= s.config.snapshot_interval ==> n == 2
                    && o.written[first + 1].1 is Snapshot
                &&& !c.is_saved && t.deltas + 1 < s.config.snapshot_interval ==> n == 1
            }
        }),
{
}

/// Where a delta is needed: a document that has a version in its history, or will have the one with
/// which it was opened, has changed and stays under its path.
pub proof fn law_where_a_delta_is_needed(s: StoreView, c: Change)
    requires
        store::wanted(s.config, c.path),
        s.trackers.contains_key(c.label),
    ensures
        ({
            let t = s.trackers[c.label];
            let needed = (t.begun || t.last.len() > 0) && c.content != t.last && !goes_elsewhere(
                s,
                c,
            );
            &&& store::delta_base(s, c) is Some <==> needed
            &&& store::delta_base(s, c) matches Some(last) ==> last == t.last
        }),
{
}

/// What is followed of a document once a change is recorded: its content, its history and path,
/// which change only where it has gone elsewhere, and the number of deltas since the last snapshot.
pub proof fn law_the_tracker_follows_the_change(s: StoreView, o: Outcome, c: Change)
    requires
        store::records(s, o, c),
        store_laws::is_recorded(s, c),
    ensures
        ({
            let t = s.trackers[c.label];
            let t2 = o.store.trackers[c.label];
            let last = o.written.last().1;
            &&& o.store.trackers.contains_key(c.label)
            &&& t2.last == c.content
            &&& t2.begun
            &&& goes_elsewhere(s, c) ==> t2.file_hash == c.path_id && t2.file_path == c.path
            &&& !goes_elsewhere(s, c) ==> t2.file_hash == t.file_hash && t2.file_path == t.file_path
            &&& o.written.len() == 0 ==> t2.deltas == t.deltas
            &&& o.written.len() > 0 && last is Delta ==> t2.deltas == t.deltas + 1
            &&& o.written.len() > 0 && last is Snapshot && t.begun ==> t2.deltas == 0
        }),
{
}

/// What the index says of a history to which a change was written: one entry more for each that was
/// written, the time of the change, its path unless that is empty, and that it is unsaved exactly
/// where the change was not a save. Where only the opening version was written, the mark stays.
pub proof fn law_the_index_follows_the_change(s: StoreView, o: Outcome, c: Change)
    requires
        store::records(s, o, c),
        o.written.len() > 0,
    ensures
        ({
            let hash = o.written.last().0;
            let before = store::indexed(s.index, hash);
            let after = store::indexed(o.store.index, hash);
            let opening_only = opening_missing(s, c) && o.written.len() == 1;
            &&& o.store.index.contains_key(hash)
            &&& after.last_timestamp == c.now
            &&& opening_only ==> after.has_unsaved == before.has_unsaved
            &&& !opening_only ==> after.has_unsaved == !c.is_saved
            &&& c.path matches Some(p) ==> p.len() > 0 ==> after.file_path == p
            &&& !goes_elsewhere(s, c) && (c.path is None || c.path->0.len() == 0)
                ==> after.file_path == before.file_path
            &&& !goes_elsewhere(s, c) ==> after.entry_count == before.entry_count
                + o.written.len()
            &&& goes_elsewhere(s, c) ==> after.entry_count == before.entry_count + 1
        }),
{
}

/// What the index says of the history that a document leaves for another: where its opening version
/// was missing, that was written to it, and else nothing changes.
pub proof fn law_the_index_of_the_history_left(s: StoreView, o: Outcome, c: Change)
    requires
        store::records(s, o, c),
        store_laws::is_recorded(s, c),
        goes_elsewhere(s, c),
    ensures
        ({
            let hash = s.trackers[c.label].file_hash;
            let before = store::indexed(s.index, hash);
            let after = store::indexed(o.store.index, hash);
            &&& after.has_unsaved == before.has_unsaved
            &&& opening_missing(s, c) ==> after.entry_count == before.entry_count + 1
                && after.last_timestamp == c.now
            &&& !opening_missing(s, c) ==> after == before
        }),
{
}

proof fn lemma_last_saved_after(file: Seq<EntryView>, e: EntryView)
    ensures
        e.saved() ==> history_diff::last_saved(file.push(e)) == Some(file.len() as int),
        !e.saved() ==> history_diff::last_saved(file.push(e)) == history_diff::last_saved(file),
{
    assert(file.push(e).drop_last() =~= file);
}

proof fn lemma_unsaved_written(
    files: Map<Seq<char>, Seq<EntryView>>,
    written: Seq<(Seq<char>, EntryView)>,
    hash: Seq<char>,
)
    requires
        forall|i: int| 0 <= i < written.len() ==> (#[trigger] written[i]).0 == hash,
        forall|i: int| 0 <= i < written.len() ==> !(#[trigger] written[i]).1.saved(),
    ensures
        ({
            let file = store_laws::file_of(files, hash);
            let after = store_laws::file_of(store_laws::files_after(files, written), hash);
            &&& history_diff::last_saved(after) == history_diff::last_saved(file)
            &&& after.len() == file.len() + written.len()
            &&& written.len() > 0 ==> !after.last().saved()
        }),
    decreases written.len(),
{
    if written.len() > 0 {
        let front = written.drop_last();
        assert forall|i: int| 0 <= i < front.len() implies (#[trigger] front[i]).0 == hash by {
            assert(written[i].0 == hash);
        }
        assert forall|i: int| 0 <= i < front.len() implies !(#[trigger] front[i]).1.saved() by {
            assert(!written[i].1.saved());
        }
        lemma_unsaved_written(files, front, hash);
        assert(written.last() == written[written.len() - 1]);
        let before = store_laws::file_of(store_laws::files_after(files, front), hash);
        lemma_last_saved_after(before, written.last().1);
    }
}

/// An edit that was not saved leaves the last save where it was: the history to which it was
/// written ends with an entry that is not saved, and its last saved entry is the one before the
/// change, or the opening version where that was written with it.
pub proof fn law_an_unsaved_edit_is_no_save(
    s: StoreView,
    o: Outcome,
    c: Change,
    files: Map<Seq<char>, Seq<EntryView>>,
)
    requires
        store::records(s, o, c),
        store_laws::is_recorded(s, c),
        !c.is_saved,
        c.content != s.trackers[c.label].last,
    ensures
        ({
            let hash = o.store.trackers[c.label].file_hash;
            let file = store_laws::file_of(files, hash);
            let after = store_laws::file_of(store_laws::files_after(files, o.written), hash);
            &&& after.len() > file.len()
            &&& !after.last().saved()
            &&& opening_missing(s, c) && !goes_elsewhere(s, c) ==> history_diff::last_saved(after)
                == Some(file.len() as int)
            &&& !opening_missing(s, c) || goes_elsewhere(s, c) ==> history_diff::last_saved(after)
                == history_diff::last_saved(file)
        }),
{
    let t = s.trackers[c.label];
    let hash = o.store.trackers[c.label].file_hash;
    if opening_missing(s, c) {
        let opened = store::opening_version(s, c);
        let rest = o.written.skip(1);
        let (h0, e0) = opened.written[0];
        assert(o.written =~= opened.written + rest);
        store_laws::lemma_appended(files, opened.written, rest);
        store_laws::lemma_one_appended(files, opened.written, h0, e0);
        let between = store_laws::files_after(files, opened.written);
        assert forall|i: int| 0 <= i < rest.len() implies (#[trigger] rest[i]).0 == hash
            && !rest[i].1.saved() by {
            law_entries_carry_their_change(s, o, c, i + 1);
            assert(rest[i] == o.written[i + 1]);
        }
        lemma_unsaved_written(between, rest, hash);
        law_kinds_of_entries(s, o, c);
        lemma_last_saved_after(store_laws::file_of(files, h0), e0);
    } else {
        assert forall|i: int| 0 <= i < o.written.len() implies (#[trigger] o.written[i]).0 == hash
            && !o.written[i].1.saved() by {
            law_entries_carry_their_change(s, o, c, i);
        }
        law_kinds_of_entries(s, o, c);
        lemma_unsaved_written(files, o.written, hash);
    }
}

/// What was edited and not saved shows as unsaved: where the document was saved before, with a
/// version in its history, the change since the save leads to the content of the edit.
pub proof fn law_an_unsaved_edit_is_shown(
    s: StoreView,
    o: Outcome,
    c: Change,
    files: Map<Seq<char>, Seq<EntryView>>,
    k: int,
    comparable: bool,
)
    requires
        store::records(s, o, c),
        store_laws::is_recorded(s, c),
        store_laws::ends_with_last(s.trackers[c.label], files),
        !c.is_saved,
        c.content != s.trackers[c.label].last,
        ({
            let hash = o.store.trackers[c.label].file_hash;
            let after = store_laws::file_of(store_laws::files_after(files, o.written), hash);
            &&& 0 <= k < after.len()
            &&& after[k].saved()
            &&& forall|i: int| k < i < after.len() ==> !(#[trigger] after[i]).saved()
            &&& history::latest(after.take(k + 1)) is Some
        }),
    ensures
        ({
            let hash = o.store.trackers[c.label].file_hash;
            let after = store_laws::file_of(store_laws::files_after(files, o.written), hash);
            &&& history_diff::unsaved(after, comparable) matches Some(u) && u.latest_content
                == c.content && Some(u.saved_content) == history::latest(after.take(k + 1))
        }),
{
    let hash = o.store.trackers[c.label].file_hash;
    let after = store_laws::file_of(store_laws::files_after(files, o.written), hash);
    law_an_unsaved_edit_is_no_save(s, o, c, files);
    store_laws::law_recording_stays_in_step(s, o, c, files);
    history_diff::lemma_last_saved_range(after);
    let j = history_diff::last_saved(after)->0;
    assert(after[after.len() - 1] == after.last());
    if history_diff::last_saved(after) is None {
        assert(!after[k].saved());
    }
    if j < k {
        assert(!after[k].saved());
    }
    if j > k {
        assert(!after[j].saved());
    }
    history_diff::law_unsaved_changes_lead_to_the_latest(after, comparable);
}

/// To follow a document changes nothing where it is not recorded. Else its content, its history and
/// its path are followed, and the version with which it was opened is written, as a saved one,
/// exactly where it is not empty and the history does not end with it.
pub proof fn law_following_writes_the_opening_version(
    s: StoreView,
    label: Seq<char>,
    content: Seq<char>,
    path: Option<Seq<char>>,
    id: Seq<char>,
    entries: Seq<EntryView>,
    now: u64,
)
    ensures
        ({
            let o = store::tracking(s, label, content, path, id, entries, now);
            let t = o.store.trackers[label];
            let p = match path {
                Some(p) => p,
                None => Seq::empty(),
            };
            &&& !store::wanted(s.config, path) ==> o.store == s && o.written.len() == 0
            &&& store::wanted(s.config, path) ==> {
                &&& o.store.config == s.config
                &&& o.store.trackers.contains_key(label)
                &&& t.last == content && t.file_hash == id && t.file_path == path
                &&& content.len() > 0 ==> t.begun
                &&& history::latest(entries) == Some(content) ==> o.written.len() == 0 && t.begun
                    && t.deltas == history::deltas_since_snapshot(entries)
                &&& history::latest(entries) != Some(content) ==> t.deltas == 0
                &&& history::latest(entries) != Some(content) && content.len() == 0
                    ==> o.written.len() == 0 && !t.begun
                &&& history::latest(entries) != Some(content) && content.len() > 0 ==> o.written
                    == seq![(id, EntryView::Snapshot { t: now, p, c: content, saved: true })]
            }
        }),
{
}

/// What the index says once a document is followed: one entry more where the opening version was
/// written, with its time and its path, and nothing unsaved where the document was read from its
/// file. All else stays, and so do all other histories and documents.
pub proof fn law_following_in_the_index(
    s: StoreView,
    label: Seq<char>,
    content: Seq<char>,
    path: Option<Seq<char>>,
    id: Seq<char>,
    entries: Seq<EntryView>,
    now: u64,
    hash: Seq<char>,
    other: Seq<char>,
)
    requires
        store::wanted(s.config, path),
    ensures
        ({
            let o = store::tracking(s, label, content, path, id, entries, now);
            let before = store::indexed(s.index, id);
            let after = store::indexed(o.store.index, id);
            &&& after.entry_count == before.entry_count + o.written.len()
            &&& path is Some ==> !after.has_unsaved
            &&& path is None ==> after.has_unsaved == before.has_unsaved
            &&& o.written.len() > 0 ==> after.last_timestamp == now && o.store.index.contains_key(id)
            &&& o.written.len() == 0 ==> after.last_timestamp == before.last_timestamp
                && after.file_path == before.file_path && o.store.index.contains_key(id)
                == s.index.contains_key(id)
            &&& o.written.len() > 0 && path is Some && path->0.len() > 0 ==> after.file_path
                == path->0
            &&& o.written.len() > 0 && (path is None || path->0.len() == 0) ==> after.file_path
                == before.file_path
            &&& hash != id ==> o.store.index.contains_key(hash) == s.index.contains_key(hash)
                && store::indexed(o.store.index, hash) == store::indexed(s.index, hash)
            &&& other != label ==> o.store.trackers.contains_key(other) == s.trackers.contains_key(
                other,
            ) && (s.trackers.contains_key(other) ==> o.store.trackers[other] == s.trackers[other])
        }),
{
}

/// What the index says of a history is what was put there for it; of one that it does not name it
/// says that there are no entries, of no time and under no path, and nothing unsaved.
pub proof fn law_the_index_says_what_was_put_there(
    index: Map<Seq<char>, IndexView>,
    hash: Seq<char>,
    e: IndexView,
)
    ensures
        store::indexed(index.insert(hash, e), hash) == e,
        ({
            let none = store::indexed(index.remove(hash), hash);
            &&& none.entry_count == 0
            &&& none.last_timestamp == 0
            &&& none.file_path.len() == 0
            &&& !none.has_unsaved
        }),
{
}

/// The history of a document goes by its path, and by its window where it has none; by the same
/// path a change finds it again.
pub proof fn law_documents_find_their_history(
    label: Seq<char>,
    p: Seq<char>,
    canonical: Option<Seq<char>>,
)
    ensures
        store::document_id(label, Some(p), canonical) == paths::path_id(p, canonical),
        store::document_id(label, None, canonical) == paths::path_id(label, canonical),
{
}

/// An index that was stored says of each name what its last pair says, and names no other.
pub proof fn law_a_stored_index_is_read(pairs: Seq<(Seq<char>, IndexView)>, hash: Seq<char>, i: int)
    requires
        -1 <= i < pairs.len(),
        i >= 0 ==> pairs[i].0 == hash,
        forall|j: int| i < j < pairs.len() ==> (#[trigger] pairs[j]).0 != hash,
    ensures
        i >= 0 ==> store::index_of_pairs(pairs).contains_key(hash) && store::index_of_pairs(
            pairs,
        )[hash] == pairs[i].1,
        i < 0 ==> !store::index_of_pairs(pairs).contains_key(hash),
    decreases pairs.len(),
{
    if pairs.len() > 0 && i < pairs.len() - 1 {
        let front = pairs.drop_last();
        assert(pairs[pairs.len() - 1].0 != hash);
        assert forall|j: int| i < j < front.len() implies (#[trigger] front[j]).0 != hash by {
            assert(pairs[j].0 != hash);
        }
        law_a_stored_index_is_read(front, hash, i);
    }
}

/// An index that is made from histories names a history exactly where there are entries of it, and
/// says of it what its last file says.
pub proof fn law_an_index_is_made_from_histories(
    files: Seq<(Seq<char>, Seq<EntryView>)>,
    hash: Seq<char>,
    i: int,
)
    requires
        -1 <= i < files.len(),
        i >= 0 ==> files[i].0 == hash && files[i].1.len() > 0,
        forall|j: int|
            i < j < files.len() ==> (#[trigger] files[j]).0 != hash || files[j].1.len() == 0,
    ensures
        i >= 0 ==> store::index_of_files(files).contains_key(hash) && Some(
            store::index_of_files(files)[hash],
        ) == history_file::summary(files[i].1),
        i < 0 ==> !store::index_of_files(files).contains_key(hash),
    decreases files.len(),
{
    if files.len() > 0 && i < files.len() - 1 {
        let front = files.drop_last();
        assert(files[files.len() - 1].0 != hash || files[files.len() - 1].1.len() == 0);
        assert forall|j: int| i < j < front.len() implies (#[trigger] front[j]).0 != hash
            || front[j].1.len() == 0 by {
            assert(files[j].0 != hash || files[j].1.len() == 0);
        }
        law_an_index_is_made_from_histories(front, hash, i);
    }
}

/// A store begins with the index that was stored, and makes one from the histories only where there
/// was none, or none that could be read.
pub proof fn law_the_first_index(
    pairs: Vec<(String, history_file::IndexEntry)>,
    files: Seq<(Seq<char>, Seq<EntryView>)>,
)
    ensures
        store::first_index(StoredIndex::Read(pairs), files) == store::index_of_pairs(
            store::pair_views(pairs@),
        ),
        store::first_index(StoredIndex::Absent, files) == store::index_of_files(files),
        store::first_index(StoredIndex::Unreadable, files) == store::index_of_files(files),
        forall|i: int|
            0 <= i < pairs@.len() ==> #[trigger] store::pair_views(pairs@)[i] == (
                pairs@[i].0@,
                pairs@[i].1@,
            ),
        store::pair_views(pairs@).len() == pairs@.len(),
{
}

/// A history that holds another number of entries keeps its path and its time in the index; its
/// mark is taken off where that is asked for. No other history is touched, and none is added.
pub proof fn law_recounting_keeps_the_rest(
    index: Map<Seq<char>, IndexView>,
    hash: Seq<char>,
    count: nat,
    clear: bool,
    other: Seq<char>,
)
    ensures
        ({
            let after = store::recounted(index, hash, count, clear);
            &&& after.contains_key(other) == index.contains_key(other)
            &&& other != hash ==> store::indexed(after, other) == store::indexed(index, other)
            &&& index.contains_key(hash) ==> {
                &&& after[hash].entry_count == count
                &&& after[hash].file_path == index[hash].file_path
                &&& after[hash].last_timestamp == index[hash].last_timestamp
                &&& after[hash].has_unsaved == (index[hash].has_unsaved && !clear)
            }
        }),
{
}

/// When old entries were dropped, the index forgets a history whose file goes, counts the lines of
/// one that was written anew, and is left alone with one that was.
pub proof fn law_the_index_after_cleanup(
    index: Map<Seq<char>, IndexView>,
    hash: Seq<char>,
    kept: Vec<String>,
    other: Seq<char>,
)
    ensures
        store::index_cleaned(index, hash, Cleanup::Leave) == index,
        ({
            let gone = store::index_cleaned(index, hash, Cleanup::Remove);
            let anew = store::index_cleaned(index, hash, Cleanup::Rewrite(kept));
            &&& !gone.contains_key(hash)
            &&& other != hash ==> gone.contains_key(other) == index.contains_key(other)
                && store::indexed(gone, other) == store::indexed(index, other)
            &&& other != hash ==> anew.contains_key(other) == index.contains_key(other)
                && store::indexed(anew, other) == store::indexed(index, other)
            &&& anew.contains_key(hash) == index.contains_key(hash)
            &&& index.contains_key(hash) ==> anew[hash].entry_count == kept@.len()
                && anew[hash].has_unsaved == index[hash].has_unsaved && anew[hash].last_timestamp
                == index[hash].last_timestamp && anew[hash].file_path == index[hash].file_path
        }),
{
}

/// A history ought to have another name exactly where the index names a path for it whose history
/// goes by another name; and where there is none of the old name, renaming changes nothing.
pub proof fn law_where_another_name_is_due(
    index: Map<Seq<char>, IndexView>,
    old_id: Seq<char>,
    new_id: Seq<char>,
    canonical: Option<Seq<char>>,
)
    ensures
        store::better_name(index, old_id, canonical) == Some(new_id) <==> {
            &&& index.contains_key(old_id)
            &&& index[old_id].file_path.len() > 0
            &&& new_id == paths::path_id(index[old_id].file_path, canonical)
            &&& new_id != old_id
        },
        !index.contains_key(old_id) ==> store::index_renamed(index, old_id, new_id) == index,
{
}

/// A list of the histories holds each of them once, with what the index says of it, and no history
/// comes before one with a later time.
pub proof fn law_histories_are_listed_newest_first(
    list: Seq<(Seq<char>, IndexView)>,
    index: Map<Seq<char>, IndexView>,
    i: int,
    j: int,
    hash: Seq<char>,
)
    requires
        store::lists_index(list, index),
        0 <= i < j < list.len(),
    ensures
        list[i].1.last_timestamp >= list[j].1.last_timestamp,
        list[i].0 != list[j].0,
        index.contains_key(list[i].0) && index[list[i].0] == list[i].1,
        index.contains_key(list[j].0) && index[list[j].0] == list[j].1,
        index.contains_key(hash) ==> exists|k: int|
            0 <= k < list.len() && (#[trigger] list[k]).0 == hash,
{
}

/// A change is made of what it was called with.
pub proof fn law_a_change_is_what_was_handed_in(
    label: Seq<char>,
    content: Seq<char>,
    path: Option<&str>,
    canonical: Option<&str>,
    is_saved: bool,
    now: u64,
    made: Option<Seq<char>>,
)
    ensures
        ({
            let id = store::path_id_of(path, canonical);
            let c = store::change(label, content, path, id, is_saved, now, made);
            &&& c.label == label && c.content == content
            &&& c.is_saved == is_saved && c.now == now && c.made == made
            &&& c.path_id == id
            &&& path matches Some(p) ==> c.path == Some(p@) && id == paths::path_id(
                p@,
                text::content_of_str(canonical),
            )
            &&& path is None ==> c.path is None && id.len() == 0
        }),
{
}

/// What is to be written, and what is listed, is read item by item.
pub proof fn law_what_is_written_is_read_in_order(
    written: Seq<store::Written>,
    metas: Seq<store::HistoryFileMeta>,
    files: Seq<(String, Vec<history::HistoryEntry>)>,
    i: int,
)
    ensures
        store::written_views(written).len() == written.len(),
        0 <= i < written.len() ==> store::written_views(written)[i] == (
            written[i].file_hash@,
            written[i].entry@,
        ),
        store::file_meta_views(metas).len() == metas.len(),
        0 <= i < metas.len() ==> {
            let (hash, e) = store::file_meta_views(metas)[i];
            &&& hash == metas[i].file_hash@
            &&& e.file_path == metas[i].file_path@
            &&& e.entry_count == metas[i].entry_count
            &&& e.last_timestamp == metas[i].last_timestamp
            &&& e.has_unsaved == metas[i].has_unsaved
        },
        store::file_views(files).len() == files.len(),
        0 <= i < files.len() ==> store::file_views(files)[i] == (
            files[i].0@,
            history::views(files[i].1@),
        ),
{
}

/// A document can be followed where it is not recorded, and else where its history can be run and
/// counted.
pub proof fn law_what_can_be_followed(
    s: StoreView,
    path: Option<Seq<char>>,
    id: Seq<char>,
    entries: Seq<EntryView>,
)
    ensures
        !store::wanted(s.config, path) ==> store::can_track(s, path, id, entries),
        store::wanted(s.config, path) ==> (store::can_track(s, path, id, entries)
            <==> history::runs_well(entries) && entries.len() < 0xffff_ffff && store::indexed(
            s.index,
            id,
        ).entry_count < usize::MAX),
{
}

/// An index says something exactly where it names a history.
pub proof fn law_an_index_that_says_something(index: Map<Seq<char>, IndexView>, hash: Seq<char>)
    ensures
        index.contains_key(hash) ==> store::names_any(index),
        !store::names_any(Map::empty()),
{
}

/// The index names a path for a history exactly where one that is not empty was put there.
pub proof fn law_paths_in_the_index(
    index: Map<Seq<char>, IndexView>,
    hash: Seq<char>,
    e: IndexView,
)
    ensures
        store::path_in_index(index.remove(hash), hash) is None,
        e.file_path.len() == 0 ==> store::path_in_index(index.insert(hash, e), hash) is None,
        e.file_path.len() > 0 ==> store::path_in_index(index.insert(hash, e), hash) == Some(
            e.file_path,
        ),
{
}

/// A history that gets another name takes along all that the index said of it, and leaves the old
/// name; no other history but one of the new name is touched.
pub proof fn law_renaming_moves_what_the_index_says(
    index: Map<Seq<char>, IndexView>,
    old_id: Seq<char>,
    new_id: Seq<char>,
    other: Seq<char>,
)
    requires
        index.contains_key(old_id),
    ensures
        ({
            let after = store::index_renamed(index, old_id, new_id);
            &&& after.contains_key(new_id) && after[new_id] == index[old_id]
            &&& old_id != new_id ==> !after.contains_key(old_id)
            &&& other != old_id && other != new_id ==> after.contains_key(other)
                == index.contains_key(other) && store::indexed(after, other) == store::indexed(
                index,
                other,
            )
        }),
{
}

} // verus!
