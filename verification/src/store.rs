//! The store of edit histories: what is tracked, what is recorded, and what the index says.
use vstd::prelude::*;

use crate::delta;
use crate::delta::make_delta;
use crate::history;
use crate::history::{entries_run_well, EntryView, HistoryEntry, HistoryLine};
use crate::history_file;
use crate::history_file::{
    cleanup_cutoff, cleanup_file, summary_of, Cleanup, IndexEntry, IndexView,
};
use crate::order;
use crate::order::order_newest_first;
use crate::paths;
use crate::paths::{is_network_path, path_hash};
use crate::string_map::StringMap;
use crate::text;
use crate::text::same_text;

verus! {

/// What is recorded, and how often a whole version is.
#[derive(Clone, Copy, Debug, PartialEq, Eq, Structural)]
pub struct HistoryConfig {
    pub enabled: bool,
    pub snapshot_interval: u32,
    pub include_network_paths: bool,
    pub include_temp_files: bool,
}

impl Default for HistoryConfig {
    fn default() -> (c: Self)
        ensures
            c == (HistoryConfig {
                enabled: true,
                snapshot_interval: 20,
                include_network_paths: false,
                include_temp_files: false,
            }),
    {
        HistoryConfig {
            enabled: true,
            snapshot_interval: 20,
            include_network_paths: false,
            include_temp_files: false,
        }
    }
}

/// How far the history of a window's document has come.
pub struct FileTracker {
    last_recorded_content: String,
    delta_count_since_snapshot: u32,
    file_hash: String,
    file_path: Option<String>,
    has_initial_snapshot: bool,
}

/// How far the history of a window's document has come: the version that was recorded last, the
/// number of deltas since the last snapshot, the history and the path of the document, and whether
/// the history ends with that version.
pub struct TrackerView {
    pub last: Seq<char>,
    pub deltas: nat,
    pub file_hash: Seq<char>,
    pub file_path: Option<Seq<char>>,
    pub begun: bool,
}

impl View for FileTracker {
    type V = TrackerView;

    closed spec fn view(&self) -> TrackerView {
        TrackerView {
            last: self.last_recorded_content@,
            deltas: self.delta_count_since_snapshot as nat,
            file_hash: self.file_hash@,
            file_path: text::content_of(self.file_path),
            begun: self.has_initial_snapshot,
        }
    }
}

fn clone_path(path: &Option<String>) -> (r: Option<String>)
    ensures
        text::content_of(r) == text::content_of(*path),
{
    match path {
        Some(p) => Some(p.clone()),
        None => None,
    }
}

fn own_path(path: Option<&str>) -> (r: Option<String>)
    ensures
        text::content_of(r) == text::content_of_str(path),
{
    match path {
        Some(p) => Some(p.to_owned()),
        None => None,
    }
}

impl Clone for FileTracker {
    fn clone(&self) -> (r: Self)
        ensures
            r@ == self@,
    {
        FileTracker {
            last_recorded_content: self.last_recorded_content.clone(),
            delta_count_since_snapshot: self.delta_count_since_snapshot,
            file_hash: self.file_hash.clone(),
            file_path: clone_path(&self.file_path),
            has_initial_snapshot: self.has_initial_snapshot,
        }
    }
}

/// The store of edit histories.
pub struct HistoryStore {
    config: HistoryConfig,
    trackers: StringMap<FileTracker>,
    index: StringMap<IndexEntry>,
}

/// The store: its configuration, the tracker of each window, and what the index says of each
/// history.
pub struct StoreView {
    pub config: HistoryConfig,
    pub trackers: Map<Seq<char>, TrackerView>,
    pub index: Map<Seq<char>, IndexView>,
}

impl View for HistoryStore {
    type V = StoreView;

    closed spec fn view(&self) -> StoreView {
        StoreView {
            config: self.config,
            trackers: self.trackers@.map_values(|t: FileTracker| t@),
            index: self.index@.map_values(|e: IndexEntry| e@),
        }
    }
}

/// A document is tracked and recorded: recording is on, and its path, or the want of one, does not
/// rule it out.
pub open spec fn wanted(config: HistoryConfig, path: Option<Seq<char>>) -> bool {
    &&& config.enabled
    &&& match path {
        Some(p) => config.include_network_paths || !paths::on_network(p),
        None => config.include_temp_files,
    }
}

fn is_wanted(config: &HistoryConfig, path: Option<&str>) -> (b: bool)
    ensures
        b == wanted(*config, text::content_of_str(path)),
{
    config.enabled && match path {
        Some(p) => config.include_network_paths || !is_network_path(p),
        None => config.include_temp_files,
    }
}

/// The path of a document, or the empty one.
pub open spec fn path_or_empty(path: Option<Seq<char>>) -> Seq<char> {
    match path {
        Some(p) => p,
        None => Seq::empty(),
    }
}

/// What the index says of a history; nothing was recorded where it says nothing.
pub open spec fn indexed(index: Map<Seq<char>, IndexView>, hash: Seq<char>) -> IndexView {
    if index.contains_key(hash) {
        index[hash]
    } else {
        IndexView {
            file_path: Seq::empty(),
            entry_count: 0,
            last_timestamp: 0,
            has_unsaved: false,
        }
    }
}

/// The path that the index is to name: an empty path does not replace another.
pub open spec fn named_path(index: Map<Seq<char>, IndexView>, hash: Seq<char>, path: Seq<char>) -> Seq<
    char,
> {
    if path.len() == 0 {
        indexed(index, hash).file_path
    } else {
        path
    }
}

/// The index after `added` entries were written to a history.
pub open spec fn index_after(
    index: Map<Seq<char>, IndexView>,
    hash: Seq<char>,
    file_path: Seq<char>,
    added: nat,
    now: u64,
    has_unsaved: bool,
) -> Map<Seq<char>, IndexView> {
    index.insert(
        hash,
        IndexView {
            file_path,
            entry_count: indexed(index, hash).entry_count + added,
            last_timestamp: now,
            has_unsaved,
        },
    )
}

/// What a change does to the store, and the entries that are to be written, each to the history of
/// that name, in order.
pub struct Outcome {
    pub store: StoreView,
    pub written: Seq<(Seq<char>, EntryView)>,
}

/// A change of a window's document: its content, its path and the name of that path's history, and
/// whether and when it was saved. `made` is the delta from the version that was recorded last, if
/// one was made.
pub struct Change {
    pub label: Seq<char>,
    pub content: Seq<char>,
    pub path: Option<Seq<char>>,
    pub path_id: Seq<char>,
    pub is_saved: bool,
    pub now: u64,
    pub made: Option<Seq<char>>,
}

impl Change {
    /// A whole version, as an entry at the time of the change.
    pub open spec fn snapshot(self, c: Seq<char>, saved: bool) -> EntryView {
        EntryView::Snapshot { t: self.now, p: path_or_empty(self.path), c, saved }
    }

    /// A delta, as an entry at the time of the change.
    pub open spec fn delta(self, d: Seq<char>) -> EntryView {
        EntryView::Delta { t: self.now, p: path_or_empty(self.path), d, saved: self.is_saved }
    }
}

impl StoreView {
    /// The store in which a tracker has changed.
    pub open spec fn with_tracker(self, label: Seq<char>, t: TrackerView) -> StoreView {
        StoreView { trackers: self.trackers.insert(label, t), ..self }
    }

    /// The store after `added` entries were written to a history under a path.
    pub open spec fn with_written(
        self,
        hash: Seq<char>,
        path: Seq<char>,
        added: nat,
        now: u64,
        has_unsaved: bool,
    ) -> StoreView {
        StoreView {
            index: index_after(
                self.index,
                hash,
                named_path(self.index, hash, path),
                added,
                now,
                has_unsaved,
            ),
            ..self
        }
    }
}

/// The first version of a document that was empty so far.
pub open spec fn first_version(s: StoreView, c: Change) -> Outcome {
    let t = s.trackers[c.label];
    Outcome {
        store: s.with_written(t.file_hash, path_or_empty(c.path), 1, c.now, !c.is_saved).with_tracker(
            c.label,
            TrackerView { last: c.content, begun: true, ..t },
        ),
        written: seq![(t.file_hash, c.snapshot(c.content, c.is_saved))],
    }
}

/// The version with which a document was opened.
pub open spec fn opening_version(s: StoreView, c: Change) -> Outcome {
    let t = s.trackers[c.label];
    Outcome {
        store: s.with_written(
            t.file_hash,
            path_or_empty(c.path),
            1,
            c.now,
            indexed(s.index, t.file_hash).has_unsaved,
        ).with_tracker(c.label, TrackerView { begun: true, ..t }),
        written: seq![(t.file_hash, c.snapshot(t.last, true))],
    }
}

/// A save without a change.
pub open spec fn bare_save(s: StoreView, c: Change) -> Outcome {
    let t = s.trackers[c.label];
    Outcome {
        store: s.with_written(t.file_hash, path_or_empty(c.path), 1, c.now, false).with_tracker(
            c.label,
            TrackerView { deltas: 0, ..t },
        ),
        written: seq![(t.file_hash, c.snapshot(c.content, true))],
    }
}

/// A document that has gone to another path: a new history begins.
pub open spec fn moved_version(s: StoreView, c: Change) -> Outcome {
    let t = s.trackers[c.label];
    let path = path_or_empty(c.path);
    Outcome {
        store: StoreView {
            index: index_after(s.index, c.path_id, path, 1, c.now, !c.is_saved),
            ..s
        }.with_tracker(
            c.label,
            TrackerView { last: c.content, deltas: 0, file_hash: c.path_id, file_path: c.path, ..t },
        ),
        written: seq![(c.path_id, c.snapshot(c.content, c.is_saved))],
    }
}

/// A snapshot follows on the delta of a change: the interval is reached, or the change was saved.
pub open spec fn snapshot_due(s: StoreView, c: Change) -> bool {
    s.trackers[c.label].deltas + 1 >= s.config.snapshot_interval || c.is_saved
}

/// An edit: its delta is written, and a snapshot where one is due. Where no delta was made nothing
/// is.
pub open spec fn edited_version(s: StoreView, c: Change) -> Outcome {
    let t = s.trackers[c.label];
    match c.made {
        None => Outcome {
            store: s.with_tracker(c.label, TrackerView { last: c.content, ..t }),
            written: Seq::empty(),
        },
        Some(d) => {
            let due = snapshot_due(s, c);
            Outcome {
                store: s.with_written(
                    t.file_hash,
                    path_or_empty(c.path),
                    if due {
                        2
                    } else {
                        1
                    },
                    c.now,
                    !c.is_saved,
                ).with_tracker(
                    c.label,
                    TrackerView {
                        last: c.content,
                        deltas: if due {
                            0
                        } else {
                            t.deltas + 1
                        },
                        ..t
                    },
                ),
                written: if due {
                    seq![
                        (t.file_hash, c.delta(d)),
                        (t.file_hash, c.snapshot(c.content, c.is_saved)),
                    ]
                } else {
                    seq![(t.file_hash, c.delta(d))]
                },
            }
        },
    }
}

/// The document of a change is kept under another path than the tracker's.
pub open spec fn has_moved(t: TrackerView, c: Change) -> bool {
    c.path is Some && c.path_id != t.file_hash
}

/// A change of a document whose history has begun.
pub open spec fn later_version(s: StoreView, c: Change) -> Outcome {
    let t = s.trackers[c.label];
    if c.content == t.last {
        if c.is_saved {
            bare_save(s, c)
        } else {
            Outcome { store: s, written: Seq::empty() }
        }
    } else if has_moved(t, c) {
        moved_version(s, c)
    } else {
        edited_version(s, c)
    }
}

/// What a change does to the store. Nothing happens where the document is not recorded, or is empty
/// and always was. Where the version with which the document was opened is not in its history, it
/// is written before the change.
pub open spec fn recorded(s: StoreView, c: Change) -> Outcome {
    let nothing = Outcome { store: s, written: Seq::empty() };
    if !wanted(s.config, c.path) || !s.trackers.contains_key(c.label) {
        nothing
    } else {
        let t = s.trackers[c.label];
        if t.begun {
            later_version(s, c)
        } else if t.last.len() == 0 {
            if c.content.len() == 0 {
                nothing
            } else {
                first_version(s, c)
            }
        } else {
            let opened = opening_version(s, c);
            let then = later_version(opened.store, c);
            Outcome { store: then.store, written: opened.written + then.written }
        }
    }
}

/// The version from which a delta is to be made for a change, if one is to be.
pub open spec fn delta_base(s: StoreView, c: Change) -> Option<Seq<char>> {
    if wanted(s.config, c.path) && s.trackers.contains_key(c.label) {
        let t = s.trackers[c.label];
        if (t.begun || t.last.len() > 0) && c.content != t.last && !has_moved(t, c) {
            Some(t.last)
        } else {
            None
        }
    } else {
        None
    }
}

/// The name of the history of a path.
pub open spec fn path_id_of(path: Option<&str>, canonical: Option<&str>) -> Seq<char> {
    match path {
        Some(p) => paths::path_id(p@, text::content_of_str(canonical)),
        None => Seq::empty(),
    }
}

/// A change, from its parts.
pub open spec fn change(
    label: Seq<char>,
    content: Seq<char>,
    path: Option<&str>,
    path_id: Seq<char>,
    is_saved: bool,
    now: u64,
    made: Option<Seq<char>>,
) -> Change {
    Change {
        label,
        content,
        path: text::content_of_str(path),
        path_id,
        is_saved,
        now,
        made,
    }
}

/// What comes of a change: where a delta is needed one was made, and it leads from the version that
/// was recorded last to the new one.
pub open spec fn records(s: StoreView, o: Outcome, c: Change) -> bool {
    &&& o == recorded(s, c)
    &&& match delta_base(s, c) {
        Some(last) => c.made matches Some(d) && delta::is_delta(d, last, c.content)
            && delta::leads_to(d, last, c.content),
        None => c.made is None,
    }
}

/// An entry that is to be written to the history of that name.
#[derive(Debug)]
pub struct Written {
    pub file_hash: String,
    pub entry: HistoryEntry,
}

/// The views of what is to be written.
pub open spec fn written_views(written: Seq<Written>) -> Seq<(Seq<char>, EntryView)> {
    written.map_values(|w: Written| (w.file_hash@, w.entry@))
}

proof fn lemma_insert_views<V, W>(m: Map<Seq<char>, V>, k: Seq<char>, v: V, f: spec_fn(V) -> W)
    ensures
        m.insert(k, v).map_values(f) == m.map_values(f).insert(k, f(v)),
{
    assert(m.insert(k, v).map_values(f) =~= m.map_values(f).insert(k, f(v)));
}

impl HistoryStore {
    /// No name occurs twice, and no tracker has counted so many deltas that it could not count one
    /// more.
    pub closed spec fn wf(&self) -> bool {
        &&& self.trackers.wf()
        &&& self.index.wf()
        &&& forall|label: Seq<char>| #[trigger]
            self@.trackers.contains_key(label) ==> self@.trackers[label].deltas < u32::MAX
    }

    /// The counts of the index can grow by what one change writes.
    pub open spec fn has_room(&self) -> bool {
        forall|hash: Seq<char>| #[trigger]
            self@.index.contains_key(hash) ==> self@.index[hash].entry_count + 3 <= usize::MAX
    }

    fn tracker(&self, label: &str) -> (t: Option<FileTracker>)
        requires
            self.wf(),
        ensures
            match t {
                Some(t) => self@.trackers.contains_key(label@) && t@ == self@.trackers[label@],
                None => !self@.trackers.contains_key(label@),
            },
    {
        match self.trackers.get(label) {
            Some(t) => Some(t.clone()),
            None => None,
        }
    }

    fn set_tracker(&mut self, label: &str, t: FileTracker)
        requires
            old(self).wf(),
            t@.deltas < u32::MAX,
        ensures
            final(self).wf(),
            final(self)@ == old(self)@.with_tracker(label@, t@),
    {
        proof {
            lemma_insert_views(self.trackers@, label@, t, |t: FileTracker| t@);
        }
        self.trackers.insert(label, t);
    }

    /// Notes in the index that entries were written to a history.
    fn note_written(
        &mut self,
        hash: &str,
        path: &str,
        keep_path: bool,
        added: usize,
        now: u64,
        has_unsaved: Option<bool>,
    )
        requires
            old(self).wf(),
            indexed(old(self)@.index, hash@).entry_count + added <= usize::MAX,
        ensures
            final(self).wf(),
            final(self)@ == (StoreView {
                index: index_after(
                    old(self)@.index,
                    hash@,
                    if keep_path {
                        named_path(old(self)@.index, hash@, path@)
                    } else {
                        path@
                    },
                    added as nat,
                    now,
                    match has_unsaved {
                        Some(b) => b,
                        None => indexed(old(self)@.index, hash@).has_unsaved,
                    },
                ),
                ..old(self)@
            }),
    {
        let (known_path, count, unsaved) = match self.index.get(hash) {
            Some(e) => (e.file_path.clone(), e.entry_count, e.has_unsaved),
            None => (String::new(), 0, false),
        };
        assert(known_path@ =~= indexed(self@.index, hash@).file_path);
        let file_path = if keep_path && path.is_empty() {
            known_path
        } else {
            path.to_owned()
        };
        let e = IndexEntry {
            file_path,
            entry_count: count + added,
            last_timestamp: now,
            has_unsaved: match has_unsaved {
                Some(b) => b,
                None => unsaved,
            },
        };
        proof {
            lemma_insert_views(self.index@, hash@, e, |e: IndexEntry| e@);
        }
        self.index.insert(hash, e);
    }

    /// Whether the counts of the index can grow by what one change writes.
    pub fn can_record(&self) -> (ok: bool)
        requires
            self.wf(),
        ensures
            ok == self.has_room(),
    {
        let mut i: usize = 0;
        proof {
            self.index.lemma_keys();
        }
        while i < self.index.len()
            invariant
                self.wf(),
                i <= self.index.keys().len(),
                self.index.keys().no_duplicates(),
                forall|k: Seq<char>| self.index.keys().contains(k) <==> self.index@.contains_key(k),
                forall|j: int|
                    0 <= j < i ==> self@.index[#[trigger] self.index.keys()[j]].entry_count + 3
                        <= usize::MAX,
            decreases self.index.keys().len() - i,
        {
            let ghost key = self.index.keys()[i as int];
            assert(self.index.keys().contains(key));
            if self.index.value_at(i).entry_count > usize::MAX - 3 {
                assert(self@.index.contains_key(key));
                return false;
            }
            i += 1;
        }
        assert forall|hash: Seq<char>| #[trigger] self@.index.contains_key(hash) implies self@.index[hash].entry_count
            + 3 <= usize::MAX by {
            let j = self.index.keys().index_of(hash);
            assert(self.index.keys().contains(hash));
            assert(self.index.keys()[j] == hash);
        }
        true
    }

    /// Records a change of a document whose history has begun.
    fn record_later(
        &mut self,
        label: &str,
        content: &str,
        saved_path: Option<&str>,
        path_id: &str,
        is_saved: bool,
        now: u64,
        made: Option<&str>,
    ) -> (written: Vec<Written>)
        requires
            old(self).wf(),
            old(self)@.trackers.contains_key(label@),
            forall|hash: Seq<char>| #[trigger]
                old(self)@.index.contains_key(hash) ==> old(self)@.index[hash].entry_count + 2
                    <= usize::MAX,
        ensures
            final(self).wf(),
            (Outcome { store: final(self)@, written: written_views(written@) }) == later_version(
                old(self)@,
                change(
                label@,
                content@,
                saved_path,
                path_id@,
                is_saved,
                now,
                text::content_of_str(made),
            ),
            ),
    {
        let ghost s = self@;
        let ghost c = change(
                label@,
                content@,
                saved_path,
                path_id@,
                is_saved,
                now,
                text::content_of_str(made),
            );
        let path = match saved_path {
            Some(p) => p,
            None => "",
        };
        proof {
            reveal_strlit("");
            assert(path@ =~= path_or_empty(c.path));
        }
        let mut written: Vec<Written> = Vec::new();
        let mut t = match self.tracker(label) {
            Some(t) => t,
            None => return written,
        };
        let hash = t.file_hash.clone();
        if same_text(content, t.last_recorded_content.as_str()) {
            if !is_saved {
                assert(written_views(written@) =~= Seq::empty());
                return written;
            }
            written.push(Written {
                file_hash: hash.clone(),
                entry: HistoryEntry::Snapshot {
                    t: now,
                    p: path.to_owned(),
                    c: content.to_owned(),
                    saved: true,
                },
            });
            self.note_written(hash.as_str(), path, true, 1, now, Some(false));
            t.delta_count_since_snapshot = 0;
            self.set_tracker(label, t);
            assert(written_views(written@) =~= bare_save(s, c).written);
            return written;
        }
        if saved_path.is_some() && !same_text(path_id, hash.as_str()) {
            written.push(Written {
                file_hash: path_id.to_owned(),
                entry: HistoryEntry::Snapshot {
                    t: now,
                    p: path.to_owned(),
                    c: content.to_owned(),
                    saved: is_saved,
                },
            });
            self.note_written(path_id, path, false, 1, now, Some(!is_saved));
            t.file_hash = path_id.to_owned();
            t.file_path = Some(path.to_owned());
            t.last_recorded_content = content.to_owned();
            t.delta_count_since_snapshot = 0;
            self.set_tracker(label, t);
            assert(written_views(written@) =~= moved_version(s, c).written);
            return written;
        }
        if let Some(d) = made {
            written.push(Written {
                file_hash: hash.clone(),
                entry: HistoryEntry::Delta {
                    t: now,
                    p: path.to_owned(),
                    d: d.to_owned(),
                    saved: is_saved,
                },
            });
            let count: u32 = t.delta_count_since_snapshot + 1;
            let due = count >= self.config.snapshot_interval || is_saved;
            if due {
                written.push(Written {
                    file_hash: hash.clone(),
                    entry: HistoryEntry::Snapshot {
                        t: now,
                        p: path.to_owned(),
                        c: content.to_owned(),
                        saved: is_saved,
                    },
                });
            }
            let added: usize = if due {
                2
            } else {
                1
            };
            self.note_written(hash.as_str(), path, true, added, now, Some(!is_saved));
            t.delta_count_since_snapshot = if due {
                0
            } else {
                count
            };
        }
        t.last_recorded_content = content.to_owned();
        self.set_tracker(label, t);
        assert(written_views(written@) =~= edited_version(s, c).written);
        written
    }

    /// Records a change, where `made` is the delta from the version that was recorded last, if one
    /// was made. Gives the entries that are to be written; where there are any, the index has
    /// changed.
    pub fn record_made(
        &mut self,
        label: &str,
        content: &str,
        saved_path: Option<&str>,
        canonical: Option<&str>,
        is_saved: bool,
        now: u64,
        made: Option<&str>,
    ) -> (written: Vec<Written>)
        requires
            old(self).wf(),
            old(self).has_room(),
        ensures
            final(self).wf(),
            (Outcome { store: final(self)@, written: written_views(written@) }) == recorded(
                old(self)@,
                change(
                    label@,
                    content@,
                    saved_path,
                    path_id_of(saved_path, canonical),
                    is_saved,
                    now,
                    text::content_of_str(made),
                ),
            ),
    {
        let ghost s = self@;
        let path_id = match saved_path {
            Some(p) => path_hash(p, canonical),
            None => String::new(),
        };
        let ghost c = change(
                label@,
                content@,
                saved_path,
                path_id@,
                is_saved,
                now,
                text::content_of_str(made),
            );
        assert(path_id@ =~= path_id_of(saved_path, canonical));
        let mut written: Vec<Written> = Vec::new();
        assert(written_views(written@) =~= Seq::empty());
        if !is_wanted(&self.config, saved_path) {
            return written;
        }
        let mut t = match self.tracker(label) {
            Some(t) => t,
            None => return written,
        };
        if t.has_initial_snapshot {
            return self.record_later(
                label,
                content,
                saved_path,
                path_id.as_str(),
                is_saved,
                now,
                made,
            );
        }
        let path = match saved_path {
            Some(p) => p,
            None => "",
        };
        proof {
            reveal_strlit("");
            assert(path@ =~= path_or_empty(c.path));
        }
        let hash = t.file_hash.clone();
        if t.last_recorded_content.as_str().is_empty() {
            if content.is_empty() {
                return written;
            }
            written.push(Written {
                file_hash: hash.clone(),
                entry: HistoryEntry::Snapshot {
                    t: now,
                    p: path.to_owned(),
                    c: content.to_owned(),
                    saved: is_saved,
                },
            });
            self.note_written(hash.as_str(), path, true, 1, now, Some(!is_saved));
            t.has_initial_snapshot = true;
            t.last_recorded_content = content.to_owned();
            self.set_tracker(label, t);
            assert(written_views(written@) =~= first_version(s, c).written);
            return written;
        }
        written.push(Written {
            file_hash: hash.clone(),
            entry: HistoryEntry::Snapshot {
                t: now,
                p: path.to_owned(),
                c: t.last_recorded_content.clone(),
                saved: true,
            },
        });
        self.note_written(hash.as_str(), path, true, 1, now, None);
        t.has_initial_snapshot = true;
        self.set_tracker(label, t);
        let ghost opened = opening_version(s, c);
        assert(written_views(written@) =~= opened.written);
        assert(self@ == opened.store);
        let mut more = self.record_later(
            label,
            content,
            saved_path,
            path_id.as_str(),
            is_saved,
            now,
            made,
        );
        let ghost added = more@;
        let ghost first = written@;
        written.append(&mut more);
        assert(written_views(written@) =~= written_views(first) + written_views(added));
        written
    }

    /// The version from which a delta is to be made for a change, if one is to be.
    fn delta_start(
        &self,
        label: &str,
        content: &str,
        saved_path: Option<&str>,
        canonical: Option<&str>,
    ) -> (base: Option<String>)
        requires
            self.wf(),
        ensures
            forall|is_saved: bool, now: u64, made: Option<Seq<char>>|
                text::content_of(base) == #[trigger] delta_base(
                    self@,
                    change(
                        label@,
                        content@,
                        saved_path,
                        path_id_of(saved_path, canonical),
                        is_saved,
                        now,
                        made,
                    ),
                ),
    {
        if !is_wanted(&self.config, saved_path) {
            return None;
        }
        let t = match self.tracker(label) {
            Some(t) => t,
            None => return None,
        };
        if !t.has_initial_snapshot && t.last_recorded_content.as_str().is_empty() {
            return None;
        }
        if same_text(content, t.last_recorded_content.as_str()) {
            return None;
        }
        if let Some(p) = saved_path {
            let path_id = path_hash(p, canonical);
            if !same_text(path_id.as_str(), t.file_hash.as_str()) {
                return None;
            }
        }
        Some(t.last_recorded_content)
    }

    /// Records a change of a window's document. Gives the entries that are to be written; where
    /// there are any, the index has changed. Where a delta is needed one is made, and leads to the
    /// new content; which one is left open only where the versions are searched for what they share.
    pub fn record_change(
        &mut self,
        label: &str,
        content: &str,
        saved_path: Option<&str>,
        canonical: Option<&str>,
        is_saved: bool,
        now: u64,
    ) -> (written: Vec<Written>)
        requires
            old(self).wf(),
            old(self).has_room(),
        ensures
            final(self).wf(),
            exists|made: Option<Seq<char>>|
                records(
                    old(self)@,
                    (Outcome { store: final(self)@, written: written_views(written@) }),
                    #[trigger] change(
                        label@,
                        content@,
                        saved_path,
                        path_id_of(saved_path, canonical),
                        is_saved,
                        now,
                        made,
                    ),
                ),
    {
        let made = match self.delta_start(label, content, saved_path, canonical) {
            Some(last) => match make_delta(last.as_str(), content) {
                Ok(d) => Some(d),
                Err(_) => None,
            },
            None => None,
        };
        let made_str = match &made {
            Some(d) => Some(d.as_str()),
            None => None,
        };
        let ghost s = self@;
        let written = self.record_made(
            label,
            content,
            saved_path,
            canonical,
            is_saved,
            now,
            made_str,
        );
        assert(records(
            s,
            Outcome { store: self@, written: written_views(written@) },
            change(
                label@,
                content@,
                saved_path,
                path_id_of(saved_path, canonical),
                is_saved,
                now,
                text::content_of_str(made_str),
            ),
        ));
        written
    }
}

/// The name of the history of a document: that of its path, or else that of its window.
pub open spec fn document_id(
    label: Seq<char>,
    path: Option<Seq<char>>,
    canonical: Option<Seq<char>>,
) -> Seq<char> {
    paths::path_id(
        match path {
            Some(p) => p,
            None => label,
        },
        canonical,
    )
}

/// The version with which a document is opened has to be written: there is one, and the history
/// does not end with it.
pub open spec fn opening_due(content: Seq<char>, entries: Seq<EntryView>) -> bool {
    content.len() > 0 && history::latest(entries) != Some(content)
}

/// How the tracker of a document begins. Its history ends with the content, unless that is empty
/// and was not recorded.
pub open spec fn first_tracker(
    content: Seq<char>,
    path: Option<Seq<char>>,
    id: Seq<char>,
    entries: Seq<EntryView>,
) -> TrackerView {
    let known = history::latest(entries) == Some(content);
    TrackerView {
        last: content,
        deltas: if known {
            history::deltas_since_snapshot(entries)
        } else {
            0
        },
        file_hash: id,
        file_path: path,
        begun: known || opening_due(content, entries),
    }
}

/// The index once a document was read from its file: nothing of it is unsaved.
pub open spec fn index_read(
    index: Map<Seq<char>, IndexView>,
    path: Option<Seq<char>>,
    id: Seq<char>,
) -> Map<Seq<char>, IndexView> {
    if path is Some && index.contains_key(id) {
        index.insert(id, IndexView { has_unsaved: false, ..index[id] })
    } else {
        index
    }
}

/// What comes of tracking a window's document, the history of which has these entries: the version
/// with which it was opened is written where that is due.
pub open spec fn tracking(
    s: StoreView,
    label: Seq<char>,
    content: Seq<char>,
    path: Option<Seq<char>>,
    id: Seq<char>,
    entries: Seq<EntryView>,
    now: u64,
) -> Outcome {
    if !wanted(s.config, path) {
        Outcome { store: s, written: Seq::empty() }
    } else {
        let read = StoreView { index: index_read(s.index, path, id), ..s };
        let t = first_tracker(content, path, id, entries);
        if opening_due(content, entries) {
            Outcome {
                store: read.with_written(
                    id,
                    path_or_empty(path),
                    1,
                    now,
                    indexed(read.index, id).has_unsaved,
                ).with_tracker(label, t),
                written: seq![
                    (
                        id,
                        EntryView::Snapshot {
                            t: now,
                            p: path_or_empty(path),
                            c: content,
                            saved: true,
                        },
                    ),
                ],
            }
        } else {
            Outcome { store: read.with_tracker(label, t), written: Seq::empty() }
        }
    }
}

/// A document can be tracked: if it is wanted, every delta after the first snapshot of its history
/// decodes, and its deltas and entries can be counted.
pub open spec fn can_track(
    s: StoreView,
    path: Option<Seq<char>>,
    id: Seq<char>,
    entries: Seq<EntryView>,
) -> bool {
    wanted(s.config, path) ==> {
        &&& history::runs_well(entries)
        &&& entries.len() < u32::MAX
        &&& indexed(s.index, id).entry_count < usize::MAX
    }
}

/// What is to be stored once a document is tracked: the entries that are to be written, and the
/// index, if it has changed.
#[derive(Debug)]
pub struct Started {
    pub written: Vec<Written>,
    pub index_changed: bool,
}

/// The index as it was found.
#[derive(Debug)]
pub enum StoredIndex {
    /// There was none.
    Absent,
    /// It could not be read.
    Unreadable,
    /// The names of histories, with what it says of each.
    Read(Vec<(String, IndexEntry)>),
}

/// The pairs of an index.
pub open spec fn pair_views(pairs: Seq<(String, IndexEntry)>) -> Seq<(Seq<char>, IndexView)> {
    pairs.map_values(|p: (String, IndexEntry)| (p.0@, p.1@))
}

/// The index that some pairs make: a later pair replaces an earlier one of the same name.
pub open spec fn index_of_pairs(pairs: Seq<(Seq<char>, IndexView)>) -> Map<Seq<char>, IndexView>
    decreases pairs.len(),
{
    if pairs.len() == 0 {
        Map::empty()
    } else {
        index_of_pairs(pairs.drop_last()).insert(pairs.last().0, pairs.last().1)
    }
}

/// The histories on disk: their names and entries.
pub open spec fn file_views(files: Seq<(String, Vec<HistoryEntry>)>) -> Seq<
    (Seq<char>, Seq<EntryView>),
> {
    files.map_values(|f: (String, Vec<HistoryEntry>)| (f.0@, history::views(f.1@)))
}

/// The index that the histories on disk make. A history without entries has no place in it.
pub open spec fn index_of_files(files: Seq<(Seq<char>, Seq<EntryView>)>) -> Map<Seq<char>, IndexView>
    decreases files.len(),
{
    if files.len() == 0 {
        Map::empty()
    } else {
        let front = index_of_files(files.drop_last());
        match history_file::summary(files.last().1) {
            Some(e) => front.insert(files.last().0, e),
            None => front,
        }
    }
}

/// The index that a store begins with.
pub open spec fn first_index(stored: StoredIndex, files: Seq<(Seq<char>, Seq<EntryView>)>) -> Map<
    Seq<char>,
    IndexView,
> {
    match stored {
        StoredIndex::Read(pairs) => index_of_pairs(pair_views(pairs@)),
        _ => index_of_files(files),
    }
}

/// The index says something of some history.
pub open spec fn names_any(index: Map<Seq<char>, IndexView>) -> bool {
    exists|hash: Seq<char>| #[trigger] index.contains_key(hash)
}

/// A history, as it is listed.
#[derive(Debug)]
pub struct HistoryFileMeta {
    pub file_hash: String,
    pub file_path: String,
    pub entry_count: usize,
    pub last_timestamp: u64,
    pub has_unsaved: bool,
}

impl View for HistoryFileMeta {
    type V = (Seq<char>, IndexView);

    open spec fn view(&self) -> (Seq<char>, IndexView) {
        (
            self.file_hash@,
            IndexView {
                file_path: self.file_path@,
                entry_count: self.entry_count as nat,
                last_timestamp: self.last_timestamp,
                has_unsaved: self.has_unsaved,
            },
        )
    }
}

impl Clone for HistoryFileMeta {
    fn clone(&self) -> (r: Self)
        ensures
            r@ == self@,
    {
        HistoryFileMeta {
            file_hash: self.file_hash.clone(),
            file_path: self.file_path.clone(),
            entry_count: self.entry_count,
            last_timestamp: self.last_timestamp,
            has_unsaved: self.has_unsaved,
        }
    }
}

/// The views of some listed histories.
pub open spec fn file_meta_views(metas: Seq<HistoryFileMeta>) -> Seq<(Seq<char>, IndexView)> {
    metas.map_values(|m: HistoryFileMeta| m@)
}

/// The list holds what the index says of each history, once, and the newest come first.
pub open spec fn lists_index(
    list: Seq<(Seq<char>, IndexView)>,
    index: Map<Seq<char>, IndexView>,
) -> bool {
    &&& forall|i: int|
        0 <= i < list.len() ==> index.contains_key((#[trigger] list[i]).0) && index[list[i].0]
            == list[i].1
    &&& forall|hash: Seq<char>| #[trigger]
        index.contains_key(hash) ==> exists|i: int| 0 <= i < list.len() && (#[trigger] list[i]).0 == hash
    &&& forall|i: int, j: int|
        0 <= i < j < list.len() ==> (#[trigger] list[i]).0 != (#[trigger] list[j]).0
            && list[i].1.last_timestamp >= list[j].1.last_timestamp
}

impl HistoryStore {
    /// Begins with the configuration and the index that were found. Without a configuration that
    /// could be read the usual one holds; without such an index one is made from the histories on
    /// disk. Says whether that index is to be kept: if there was none, and it is not empty.
    pub fn load(
        config: Option<HistoryConfig>,
        stored: StoredIndex,
        files: &Vec<(String, Vec<HistoryEntry>)>,
    ) -> (r: (Self, bool))
        ensures
            r.0.wf(),
            r.0@ == (StoreView {
                config: match config {
                    Some(c) => c,
                    None => HistoryConfig {
                        enabled: true,
                        snapshot_interval: 20,
                        include_network_paths: false,
                        include_temp_files: false,
                    },
                },
                trackers: Map::empty(),
                index: first_index(stored, file_views(files@)),
            }),
            r.1 == (stored is Absent && names_any(r.0@.index)),
    {
        let config = match config {
            Some(c) => c,
            None => HistoryConfig::default(),
        };
        let absent = match &stored {
            StoredIndex::Absent => true,
            _ => false,
        };
        let index = match stored {
            StoredIndex::Read(pairs) => index_from_pairs(pairs),
            StoredIndex::Absent => index_from_files(files),
            StoredIndex::Unreadable => index_from_files(files),
        };
        let keep = absent && index.len() > 0;
        let store = HistoryStore { config, trackers: StringMap::new(), index };
        proof {
            store.index.lemma_keys();
            assert(store@.trackers =~= Map::empty());
            if store.index.keys().len() > 0 {
                let hash = store.index.keys()[0];
                assert(store.index@.contains_key(hash));
                assert(store@.index.contains_key(hash));
            }
            assert forall|hash: Seq<char>| #[trigger] store@.index.contains_key(hash) implies store.index.keys().len()
                > 0 by {
                assert(store.index.keys().contains(hash));
            }
        }
        (store, keep)
    }

    /// The configuration.
    pub fn config(&self) -> (c: &HistoryConfig)
        ensures
            *c == self@.config,
    {
        &self.config
    }

    /// Sets the configuration.
    pub fn set_config(&mut self, config: HistoryConfig)
        requires
            old(self).wf(),
        ensures
            final(self).wf(),
            final(self)@ == (StoreView { config, ..old(self)@ }),
    {
        self.config = config;
    }

    /// The name of the history that is to be read before a document is tracked; none where the
    /// document will not be.
    pub fn tracking_hash(&self, label: &str, file_path: Option<&str>, canonical: Option<&str>) -> (id:
        Option<String>)
        ensures
            text::content_of(id) == if wanted(self@.config, text::content_of_str(file_path)) {
                Some(
                    document_id(
                        label@,
                        text::content_of_str(file_path),
                        text::content_of_str(canonical),
                    ),
                )
            } else {
                None
            },
    {
        if !is_wanted(&self.config, file_path) {
            return None;
        }
        Some(
            match file_path {
                Some(p) => path_hash(p, canonical),
                None => path_hash(label, canonical),
            },
        )
    }

    /// Begins to track a window's document, the history of which has these entries. Gives the
    /// version with which it was opened, where the history does not end with that.
    pub fn start_tracking(
        &mut self,
        label: &str,
        initial_content: &str,
        file_path: Option<&str>,
        canonical: Option<&str>,
        entries: &Vec<HistoryEntry>,
        now: u64,
    ) -> (started: Started)
        requires
            old(self).wf(),
            can_track(
                old(self)@,
                text::content_of_str(file_path),
                document_id(
                    label@,
                    text::content_of_str(file_path),
                    text::content_of_str(canonical),
                ),
                history::views(entries@),
            ),
        ensures
            final(self).wf(),
            (Outcome { store: final(self)@, written: written_views(started.written@) }) == tracking(
                old(self)@,
                label@,
                initial_content@,
                text::content_of_str(file_path),
                document_id(
                    label@,
                    text::content_of_str(file_path),
                    text::content_of_str(canonical),
                ),
                history::views(entries@),
                now,
            ),
            started.index_changed == (final(self)@.index != old(self)@.index),
    {
        let ghost s = self@;
        let ghost path = text::content_of_str(file_path);
        let mut written: Vec<Written> = Vec::new();
        assert(written_views(written@) =~= Seq::empty());
        let hash = match self.tracking_hash(label, file_path, canonical) {
            Some(hash) => hash,
            None => return Started { written, index_changed: false },
        };
        let mut index_changed = false;
        if file_path.is_some() {
            if let Some(e) = self.index.get(hash.as_str()) {
                if e.has_unsaved {
                    let mut e = e.clone();
                    e.has_unsaved = false;
                    proof {
                        lemma_insert_views(self.index@, hash@, e, |e: IndexEntry| e@);
                    }
                    self.index.insert(hash.as_str(), e);
                    index_changed = true;
                    assert(self@.index[hash@] != s.index[hash@]);
                }
            }
        }
        assert(self@.index =~= index_read(s.index, path, hash@));
        let (known, count) = match history::get_last_state(entries) {
            Some((last, n)) => if same_text(last.as_str(), initial_content) {
                (true, n)
            } else {
                (false, 0)
            },
            None => (false, 0),
        };
        proof {
            history::lemma_deltas_bound(history::views(entries@));
        }
        let due = !known && !initial_content.is_empty();
        if due {
            let p = match file_path {
                Some(p) => p,
                None => "",
            };
            proof {
                reveal_strlit("");
                assert(p@ =~= path_or_empty(path));
            }
            written.push(Written {
                file_hash: hash.clone(),
                entry: HistoryEntry::Snapshot {
                    t: now,
                    p: p.to_owned(),
                    c: initial_content.to_owned(),
                    saved: true,
                },
            });
            self.note_written(hash.as_str(), p, true, 1, now, None);
            index_changed = true;
            assert(indexed(self@.index, hash@).entry_count != indexed(s.index, hash@).entry_count);
        }
        let t = FileTracker {
            last_recorded_content: initial_content.to_owned(),
            delta_count_since_snapshot: count,
            file_hash: hash,
            file_path: own_path(file_path),
            has_initial_snapshot: known || due,
        };
        self.set_tracker(label, t);
        assert(written_views(written@) =~= tracking(
            s,
            label@,
            initial_content@,
            path,
            hash@,
            history::views(entries@),
            now,
        ).written);
        Started { written, index_changed }
    }

    /// Begins to track a window's document, if every delta after the first snapshot of its history
    /// decodes, and its deltas and entries can be counted.
    pub fn try_start_tracking(
        &mut self,
        label: &str,
        initial_content: &str,
        file_path: Option<&str>,
        canonical: Option<&str>,
        entries: &Vec<HistoryEntry>,
        now: u64,
    ) -> (r: Option<Started>)
        requires
            old(self).wf(),
        ensures
            final(self).wf(),
            r is Some == can_track(
                old(self)@,
                text::content_of_str(file_path),
                document_id(
                    label@,
                    text::content_of_str(file_path),
                    text::content_of_str(canonical),
                ),
                history::views(entries@),
            ),
            match r {
                Some(started) => (Outcome {
                    store: final(self)@,
                    written: written_views(started.written@),
                }) == tracking(
                    old(self)@,
                    label@,
                    initial_content@,
                    text::content_of_str(file_path),
                    document_id(
                        label@,
                        text::content_of_str(file_path),
                        text::content_of_str(canonical),
                    ),
                    history::views(entries@),
                    now,
                ) && started.index_changed == (final(self)@.index != old(self)@.index),
                None => final(self)@ == old(self)@,
            },
    {
        if let Some(hash) = self.tracking_hash(label, file_path, canonical) {
            let countable = match self.index.get(hash.as_str()) {
                Some(e) => e.entry_count < usize::MAX,
                None => true,
            };
            if !countable || !entries_run_well(entries) || entries.len() >= u32::MAX as usize {
                return None;
            }
        }
        Some(self.start_tracking(label, initial_content, file_path, canonical, entries, now))
    }

    /// Tracks a window's document no longer.
    pub fn stop_tracking(&mut self, label: &str)
        requires
            old(self).wf(),
        ensures
            final(self).wf(),
            final(self)@ == (StoreView {
                trackers: old(self)@.trackers.remove(label@),
                ..old(self)@
            }),
    {
        let ghost before = self.trackers@;
        self.trackers.remove(label);
        proof {
            assert(self@.trackers =~= before.map_values(|t: FileTracker| t@).remove(label@));
        }
    }

    /// Whether the history of a path holds versions that were not saved.
    pub fn check_unsaved(&self, file_path: &str, canonical: Option<&str>) -> (b: bool)
        requires
            self.wf(),
        ensures
            b == indexed(
                self@.index,
                paths::path_id(file_path@, text::content_of_str(canonical)),
            ).has_unsaved,
    {
        let hash = path_hash(file_path, canonical);
        match self.index.get(hash.as_str()) {
            Some(e) => e.has_unsaved,
            None => false,
        }
    }

    /// Lists the histories, the newest first.
    pub fn get_files(&self) -> (metas: Vec<HistoryFileMeta>)
        requires
            self.wf(),
        ensures
            lists_index(file_meta_views(metas@), self@.index),
    {
        proof {
            self.index.lemma_keys();
        }
        let mut times: Vec<u64> = Vec::new();
        let mut i: usize = 0;
        while i < self.index.len()
            invariant
                self.wf(),
                i <= self.index.keys().len(),
                times.len() == i,
                forall|j: int|
                    0 <= j < i ==> #[trigger] times@[j]
                        == self.index@[self.index.keys()[j]].last_timestamp,
            decreases self.index.keys().len() - i,
        {
            times.push(self.index.value_at(i).last_timestamp);
            i += 1;
        }
        let sorted = order_newest_first(&times);
        let ghost positions = order::ints(sorted@);
        let mut metas: Vec<HistoryFileMeta> = Vec::new();
        let mut k: usize = 0;
        while k < sorted.len()
            invariant
                self.wf(),
                k <= sorted.len() == times.len() == self.index.keys().len(),
                positions == order::ints(sorted@),
                order::newest_first(times@, positions),
                metas.len() == k,
                forall|j: int|
                    0 <= j < k ==> (#[trigger] metas@[j])@ == (
                        self.index.keys()[positions[j]],
                        self.index@[self.index.keys()[positions[j]]]@,
                    ),
            decreases sorted.len() - k,
        {
            assert(positions[k as int] == sorted@[k as int]);
            let p = sorted[k];
            let e = self.index.value_at(p);
            metas.push(HistoryFileMeta {
                file_hash: self.index.key_at(p).clone(),
                file_path: e.file_path.clone(),
                entry_count: e.entry_count,
                last_timestamp: e.last_timestamp,
                has_unsaved: e.has_unsaved,
            });
            k += 1;
        }
        proof {
            let list = file_meta_views(metas@);
            order::law_newest_first_lists_each_once(times@, positions);
            assert forall|j: int| 0 <= j < list.len() implies #[trigger] list[j] == (
                self.index.keys()[positions[j]],
                self.index@[self.index.keys()[positions[j]]]@,
            ) by {
                assert(list[j] == metas@[j]@);
            }
            assert forall|hash: Seq<char>| #[trigger] self@.index.contains_key(hash) implies exists|
                i: int,
            |
                0 <= i < list.len() && (#[trigger] list[i]).0 == hash by {
                assert(self.index.keys().contains(hash));
                let p = self.index.keys().index_of(hash);
                assert(positions.contains(p));
                let j = positions.index_of(p);
                assert(positions[j] == p);
                assert(list[j].0 == hash);
            }
            assert forall|i: int, j: int| 0 <= i < j < list.len() implies (#[trigger] list[i]).0 != (
            #[trigger] list[j]).0 && list[i].1.last_timestamp >= list[j].1.last_timestamp by {
                assert(order::before(times@, positions[i], positions[j]));
                assert(times@[positions[i]] == list[i].1.last_timestamp);
                assert(times@[positions[j]] == list[j].1.last_timestamp);
                assert(positions[i] != positions[j]);
            }
        }
        metas
    }

    /// Takes a history out of the index, once its file is deleted.
    pub fn delete_file(&mut self, file_hash: &str)
        requires
            old(self).wf(),
        ensures
            final(self).wf(),
            final(self)@ == (StoreView {
                index: old(self)@.index.remove(file_hash@),
                ..old(self)@
            }),
    {
        let ghost before = self.index@;
        self.index.remove(file_hash);
        proof {
            assert(self@.index =~= before.map_values(|e: IndexEntry| e@).remove(file_hash@));
        }
    }

    fn set_count(&mut self, file_hash: &str, count: usize, clear_unsaved: bool)
        requires
            old(self).wf(),
        ensures
            final(self).wf(),
            final(self)@ == (StoreView {
                index: recounted(old(self)@.index, file_hash@, count as nat, clear_unsaved),
                ..old(self)@
            }),
    {
        if let Some(e) = self.index.get(file_hash) {
            let mut e = e.clone();
            e.entry_count = count;
            if clear_unsaved {
                e.has_unsaved = false;
            }
            proof {
                lemma_insert_views(self.index@, file_hash@, e, |e: IndexEntry| e@);
            }
            self.index.insert(file_hash, e);
        }
    }

    /// Notes in the index that the entries after the last save were dropped from a history, so that
    /// its file holds the lines `kept`.
    pub fn delete_unsaved_entries(&mut self, file_hash: &str, kept: &Vec<String>)
        requires
            old(self).wf(),
        ensures
            final(self).wf(),
            final(self)@ == (StoreView {
                index: recounted(old(self)@.index, file_hash@, kept@.len(), true),
                ..old(self)@
            }),
    {
        self.set_count(file_hash, kept.len(), true);
    }

    /// Drops the entries of a history that are older than thirty days, all but the last snapshot
    /// among them. Says what is to be done with its file.
    pub fn cleanup_old_entries(&mut self, file_hash: &str, file: &Vec<HistoryLine>, now: u64) -> (c:
        Cleanup)
        requires
            old(self).wf(),
        ensures
            final(self).wf(),
            history_file::cleans(c, file@, history_file::cutoff(now)),
            final(self)@ == (StoreView {
                index: index_cleaned(old(self)@.index, file_hash@, c),
                ..old(self)@
            }),
    {
        let c = cleanup_file(file, cleanup_cutoff(now));
        match &c {
            Cleanup::Leave => {},
            Cleanup::Remove => self.delete_file(file_hash),
            Cleanup::Rewrite(lines) => self.set_count(file_hash, lines.len(), false),
        }
        c
    }

    /// The names of all histories.
    pub fn hashes(&self) -> (names: Vec<String>)
        requires
            self.wf(),
        ensures
            text::contents(names@).no_duplicates(),
            forall|hash: Seq<char>| #[trigger]
                text::contents(names@).contains(hash) <==> self@.index.contains_key(hash),
    {
        let mut names: Vec<String> = Vec::new();
        let mut i: usize = 0;
        while i < self.index.len()
            invariant
                i <= self.index.keys().len(),
                text::contents(names@) == self.index.keys().take(i as int),
            decreases self.index.keys().len() - i,
        {
            let ghost so_far = text::contents(names@);
            let name = self.index.key_at(i).clone();
            names.push(name);
            i += 1;
            assert(text::contents(names@) =~= so_far.push(name@));
            assert(text::contents(names@) =~= self.index.keys().take(i as int));
        }
        assert(text::contents(names@) =~= self.index.keys());
        proof {
            self.index.lemma_keys();
        }
        names
    }

    /// The path that the index names for a history, if it names one.
    pub fn indexed_path(&self, file_hash: &str) -> (path: Option<String>)
        requires
            self.wf(),
        ensures
            text::content_of(path) == if self@.index.contains_key(file_hash@)
                && self@.index[file_hash@].file_path.len() > 0 {
                Some(self@.index[file_hash@].file_path)
            } else {
                None
            },
            text::content_of(path) == path_in_index(self@.index, file_hash@),
    {
        match self.index.get(file_hash) {
            Some(e) => if e.file_path.as_str().is_empty() {
                None
            } else {
                Some(e.file_path.clone())
            },
            None => None,
        }
    }

    /// The name that a history ought to have after its path, if it has another.
    pub fn migration_target(&self, old_id: &str, canonical: Option<&str>) -> (new_id: Option<String>)
        requires
            self.wf(),
        ensures
            text::content_of(new_id) == better_name(
                self@.index,
                old_id@,
                text::content_of_str(canonical),
            ),
    {
        match self.indexed_path(old_id) {
            Some(path) => {
                let new_id = path_hash(path.as_str(), canonical);
                if same_text(new_id.as_str(), old_id) {
                    None
                } else {
                    Some(new_id)
                }
            },
            None => None,
        }
    }

    /// Gives a history another name in the index, once its file is renamed.
    pub fn migrate(&mut self, old_id: &str, new_id: &str)
        requires
            old(self).wf(),
        ensures
            final(self).wf(),
            final(self)@ == (StoreView {
                index: index_renamed(old(self)@.index, old_id@, new_id@),
                ..old(self)@
            }),
    {
        let ghost before = self.index@;
        if let Some(e) = self.index.remove(old_id) {
            proof {
                assert(self@.index =~= before.map_values(|e: IndexEntry| e@).remove(old_id@));
                lemma_insert_views(self.index@, new_id@, e, |e: IndexEntry| e@);
            }
            self.index.insert(new_id, e);
        } else {
            assert(self@.index =~= before.map_values(|e: IndexEntry| e@));
        }
    }
}

/// The path that the index names for a history, if it names one.
pub open spec fn path_in_index(index: Map<Seq<char>, IndexView>, hash: Seq<char>) -> Option<
    Seq<char>,
> {
    let path = indexed(index, hash).file_path;
    if path.len() == 0 {
        None
    } else {
        Some(path)
    }
}

/// The name that a history ought to have after its path, if it has another. `canonical` is the
/// canonical path of its file, if there is one.
pub open spec fn better_name(
    index: Map<Seq<char>, IndexView>,
    old_id: Seq<char>,
    canonical: Option<Seq<char>>,
) -> Option<Seq<char>> {
    if index.contains_key(old_id) && index[old_id].file_path.len() > 0 {
        let new_id = paths::path_id(index[old_id].file_path, canonical);
        if new_id == old_id {
            None
        } else {
            Some(new_id)
        }
    } else {
        None
    }
}

/// The index once a history has another name.
pub open spec fn index_renamed(
    index: Map<Seq<char>, IndexView>,
    old_id: Seq<char>,
    new_id: Seq<char>,
) -> Map<Seq<char>, IndexView> {
    if index.contains_key(old_id) {
        index.remove(old_id).insert(new_id, index[old_id])
    } else {
        index
    }
}

/// Whether the file of a history may take the name of another: it is there, and the other is not.
pub fn can_rename(old_exists: bool, new_exists: bool) -> (b: bool)
    ensures
        b == (old_exists && !new_exists),
{
    old_exists && !new_exists
}

/// A history that was given the name after its path keeps it, with all that the index said of it,
/// and no other history but one of that name is touched.
pub proof fn law_renaming_settles(
    index: Map<Seq<char>, IndexView>,
    old_id: Seq<char>,
    canonical: Option<Seq<char>>,
    other: Seq<char>,
)
    requires
        better_name(index, old_id, canonical) is Some,
    ensures
        ({
            let new_id = better_name(index, old_id, canonical)->0;
            let after = index_renamed(index, old_id, new_id);
            &&& after.contains_key(new_id) && after[new_id] == index[old_id]
            &&& !after.contains_key(old_id)
            &&& better_name(after, new_id, canonical) is None
            &&& other != old_id && other != new_id ==> indexed(after, other) == indexed(index, other)
        }),
{
}

/// The index once a history holds another number of entries.
pub open spec fn recounted(
    index: Map<Seq<char>, IndexView>,
    hash: Seq<char>,
    count: nat,
    clear_unsaved: bool,
) -> Map<Seq<char>, IndexView> {
    if index.contains_key(hash) {
        index.insert(
            hash,
            IndexView {
                entry_count: count,
                has_unsaved: !clear_unsaved && index[hash].has_unsaved,
                ..index[hash]
            },
        )
    } else {
        index
    }
}

/// The index once old entries were dropped from a history.
pub open spec fn index_cleaned(
    index: Map<Seq<char>, IndexView>,
    hash: Seq<char>,
    c: Cleanup,
) -> Map<Seq<char>, IndexView> {
    match c {
        Cleanup::Leave => index,
        Cleanup::Remove => index.remove(hash),
        Cleanup::Rewrite(lines) => recounted(index, hash, lines@.len(), false),
    }
}

fn index_from_pairs(pairs: Vec<(String, IndexEntry)>) -> (index: StringMap<IndexEntry>)
    ensures
        index.wf(),
        index@.map_values(|e: IndexEntry| e@) == index_of_pairs(pair_views(pairs@)),
{
    let ghost v = pair_views(pairs@);
    let mut index: StringMap<IndexEntry> = StringMap::new();
    let mut i: usize = 0;
    assert(index@.map_values(|e: IndexEntry| e@) =~= index_of_pairs(v.take(0)));
    while i < pairs.len()
        invariant
            i <= pairs.len(),
            v == pair_views(pairs@),
            index.wf(),
            index@.map_values(|e: IndexEntry| e@) == index_of_pairs(v.take(i as int)),
        decreases pairs.len() - i,
    {
        assert(v.take(i + 1).drop_last() =~= v.take(i as int));
        let e = pairs[i].1.clone();
        proof {
            lemma_insert_views(index@, pairs@[i as int].0@, e, |e: IndexEntry| e@);
        }
        index.insert(pairs[i].0.as_str(), e);
        i += 1;
    }
    assert(v.take(i as int) =~= v);
    index
}

fn index_from_files(files: &Vec<(String, Vec<HistoryEntry>)>) -> (index: StringMap<IndexEntry>)
    ensures
        index.wf(),
        index@.map_values(|e: IndexEntry| e@) == index_of_files(file_views(files@)),
{
    let ghost v = file_views(files@);
    let mut index: StringMap<IndexEntry> = StringMap::new();
    let mut i: usize = 0;
    assert(index@.map_values(|e: IndexEntry| e@) =~= index_of_files(v.take(0)));
    while i < files.len()
        invariant
            i <= files.len(),
            v == file_views(files@),
            index.wf(),
            index@.map_values(|e: IndexEntry| e@) == index_of_files(v.take(i as int)),
        decreases files.len() - i,
    {
        assert(v.take(i + 1).drop_last() =~= v.take(i as int));
        if let Some(e) = summary_of(&files[i].1) {
            proof {
                lemma_insert_views(index@, files@[i as int].0@, e, |e: IndexEntry| e@);
            }
            index.insert(files[i].0.as_str(), e);
        }
        i += 1;
    }
    assert(v.take(i as int) =~= v);
    index
}

} // verus!
