//! What changed from entry to entry of a history, and since the last save.
use vstd::prelude::*;

use crate::delta;
use crate::delta::{apply_delta, difference, DeltaFault};
use crate::history;
use crate::history::{try_run, try_version_of_first, EntryView, HistoryEntry, HistoryError};
use crate::line_diff;
use crate::line_diff::{
    clone_diff, diff_of_all_lines, diff_of_lines, quick_diff_preview, DiffLine,
};

verus! {

/// A glance at what an entry changed: at most two lines, and the number of lines that changed.
#[derive(Debug)]
pub struct EntryDiffPreview {
    pub timestamp: u64,
    pub preview_lines: Vec<DiffLine>,
    pub total_changes: usize,
}

/// A glance at what an entry changed.
pub struct PreviewView {
    pub timestamp: u64,
    pub preview_lines: Seq<(Seq<char>, Seq<char>)>,
    pub total_changes: int,
}

impl View for EntryDiffPreview {
    type V = PreviewView;

    open spec fn view(&self) -> PreviewView {
        PreviewView {
            timestamp: self.timestamp,
            preview_lines: line_diff::diff_views(self.preview_lines@),
            total_changes: self.total_changes as int,
        }
    }
}

impl Clone for EntryDiffPreview {
    fn clone(&self) -> (r: Self)
        ensures
            r@ == self@,
    {
        EntryDiffPreview {
            timestamp: self.timestamp,
            preview_lines: clone_diff(&self.preview_lines),
            total_changes: self.total_changes,
        }
    }
}

/// The version that an entry gives after `current`.
pub open spec fn given(current: Seq<char>, e: EntryView) -> Result<Seq<char>, DeltaFault> {
    match e {
        EntryView::Snapshot { c, .. } => Ok(c),
        EntryView::Delta { d, .. } => delta::delta_result(current, d),
    }
}

/// The glance at an entry that gave `after`: none where it gave nothing, where its version was
/// saved, and where nothing changed.
pub open spec fn glance(
    timestamp: u64,
    saved: bool,
    before: Seq<char>,
    after: Result<Seq<char>, DeltaFault>,
) -> Option<PreviewView> {
    match after {
        Ok(new) => {
            let (preview_lines, total_changes) = line_diff::preview(before, new);
            if !saved && total_changes > 0 {
                Some(PreviewView { timestamp, preview_lines, total_changes })
            } else {
                None
            }
        },
        Err(_) => None,
    }
}

/// The view of a glance.
pub open spec fn glance_view(p: Option<EntryDiffPreview>) -> Option<PreviewView> {
    match p {
        Some(p) => Some(p@),
        None => None,
    }
}

/// The glance at an entry that gave `after`.
pub fn preview_of(
    timestamp: u64,
    saved: bool,
    before: &str,
    after: &Result<String, DeltaFault>,
) -> (p: Option<EntryDiffPreview>)
    ensures
        glance_view(p) == glance(timestamp, saved, before@, delta::applied(*after)),
{
    match after {
        Ok(new) => {
            let (preview_lines, total_changes) = quick_diff_preview(before, new.as_str());
            if !saved && total_changes > 0 {
                Some(EntryDiffPreview { timestamp, preview_lines, total_changes })
            } else {
                None
            }
        },
        Err(_) => None,
    }
}

/// The glances at the entries of a history, in order. A history begins with an empty document.
pub open spec fn glances(entries: Seq<EntryView>) -> Seq<PreviewView>
    decreases entries.len(),
{
    if entries.len() == 0 {
        Seq::empty()
    } else {
        let front = entries.drop_last();
        let e = entries.last();
        let before = history::run_from(Seq::empty(), front);
        match glance(e.time(), e.saved(), before, given(before, e)) {
            Some(p) => glances(front).push(p),
            None => glances(front),
        }
    }
}

/// The views of some glances.
pub open spec fn preview_views(previews: Seq<EntryDiffPreview>) -> Seq<PreviewView> {
    previews.map_values(|p: EntryDiffPreview| p@)
}

fn give(current: &str, e: &HistoryEntry) -> (r: Result<String, DeltaFault>)
    requires
        e@.applies(current@),
    ensures
        delta::applied(r) == given(current@, e@),
{
    match e {
        HistoryEntry::Snapshot { c, .. } => Ok(c.clone()),
        HistoryEntry::Delta { d, .. } => apply_delta(current, d.as_str()),
    }
}

/// Glances at all entries of a history whose versions were not saved.
pub fn get_entry_previews(entries: &Vec<HistoryEntry>) -> (previews: Vec<EntryDiffPreview>)
    requires
        history::runs(Seq::empty(), history::views(entries@)),
    ensures
        preview_views(previews@) == glances(history::views(entries@)),
{
    let ghost v = history::views(entries@);
    let mut current: String = String::new();
    let mut previews: Vec<EntryDiffPreview> = Vec::new();
    let mut i: usize = 0;
    assert(v.take(0) =~= Seq::empty());
    assert(preview_views(previews@) =~= Seq::empty());
    while i < entries.len()
        invariant
            i <= entries.len(),
            v == history::views(entries@),
            history::runs(Seq::empty(), v),
            current@ == history::run_from(Seq::empty(), v.take(i as int)),
            preview_views(previews@) == glances(v.take(i as int)),
        decreases entries.len() - i,
    {
        assert(v[i as int] == entries@[i as int]@);
        assert(v.take(i + 1).drop_last() =~= v.take(i as int));
        assert(v.take(i + 1).last() == v[i as int]);
        proof {
            history::lemma_runs_no_further(Seq::empty(), v, i + 1);
        }
        let e = &entries[i];
        let made = give(current.as_str(), e);
        let ghost so_far = preview_views(previews@);
        match preview_of(e.time(), e.saved(), current.as_str(), &made) {
            Some(p) => {
                previews.push(p);
                assert(preview_views(previews@) =~= so_far.push(p@));
            },
            None => {},
        }
        current = history::keep_or_take(current, made);
        i += 1;
    }
    assert(v.take(i as int) =~= v);
    previews
}

/// Glances at all entries of a history whose versions were not saved, if every delta decodes.
pub fn try_get_entry_previews(entries: &Vec<HistoryEntry>) -> (r: Option<Vec<EntryDiffPreview>>)
    ensures
        match r {
            Some(previews) => history::runs(Seq::empty(), history::views(entries@))
                && preview_views(previews@) == glances(history::views(entries@)),
            None => !history::runs(Seq::empty(), history::views(entries@)),
        },
{
    let empty: String = String::new();
    assert(empty@ =~= Seq::empty());
    assert(history::views(entries@).subrange(0, entries.len() as int) =~= history::views(entries@));
    match try_run(empty, entries, 0, entries.len()) {
        Some(_) => Some(get_entry_previews(entries)),
        None => None,
    }
}

/// All that an entry changed.
#[derive(Debug)]
pub struct EntryFullDiff {
    pub timestamp: u64,
    pub diff_lines: Vec<DiffLine>,
}

/// All that an entry changed.
pub struct FullDiffView {
    pub timestamp: u64,
    pub diff_lines: Seq<(Seq<char>, Seq<char>)>,
}

impl View for EntryFullDiff {
    type V = FullDiffView;

    open spec fn view(&self) -> FullDiffView {
        FullDiffView {
            timestamp: self.timestamp,
            diff_lines: line_diff::diff_views(self.diff_lines@),
        }
    }
}

impl Clone for EntryFullDiff {
    fn clone(&self) -> (r: Self)
        ensures
            r@ == self@,
    {
        EntryFullDiff { timestamp: self.timestamp, diff_lines: clone_diff(&self.diff_lines) }
    }
}

/// What an entry changed, where it gave `after`, or why it gave nothing.
pub open spec fn change(
    timestamp: u64,
    before: Seq<char>,
    after: Result<Seq<char>, DeltaFault>,
) -> Result<FullDiffView, HistoryError> {
    match after {
        Ok(new) => Ok(FullDiffView { timestamp, diff_lines: line_diff::line_diff(before, new) }),
        Err(fault) => Err(HistoryError::Delta(fault)),
    }
}

/// The view of a change.
pub open spec fn change_view(r: Result<EntryFullDiff, HistoryError>) -> Result<
    FullDiffView,
    HistoryError,
> {
    match r {
        Ok(d) => Ok(d@),
        Err(e) => Err(e),
    }
}

/// What an entry changed, where it gave `after`, or why it gave nothing.
pub fn full_diff_of(timestamp: u64, before: &str, after: &Result<String, DeltaFault>) -> (r: Result<
    EntryFullDiff,
    HistoryError,
>)
    ensures
        change_view(r) == change(timestamp, before@, delta::applied(*after)),
{
    match after {
        Ok(new) => Ok(EntryFullDiff { timestamp, diff_lines: diff_of_lines(before, new.as_str()) }),
        Err(fault) => Err(HistoryError::Delta(*fault)),
    }
}

/// The number of entries before the first one of the time `t`.
pub open spec fn entries_before(entries: Seq<EntryView>, t: u64) -> nat
    decreases entries.len(),
{
    if entries.len() == 0 || entries[0].time() == t {
        0
    } else {
        entries_before(entries.skip(1), t) + 1
    }
}

/// What the first entry of the time `t` changed.
pub open spec fn change_at(entries: Seq<EntryView>, t: u64) -> Result<FullDiffView, HistoryError> {
    let n = entries_before(entries, t) as int;
    if n == entries.len() {
        Err(HistoryError::EntryNotFound)
    } else {
        let before = history::run_from(Seq::empty(), entries.take(n));
        change(t, before, given(before, entries[n]))
    }
}

proof fn lemma_entries_before(entries: Seq<EntryView>, t: u64, n: nat)
    requires
        n <= entries.len(),
        forall|i: int| 0 <= i < n ==> (#[trigger] entries[i]).time() != t,
        n == entries.len() || entries[n as int].time() == t,
    ensures
        entries_before(entries, t) == n,
    decreases n,
{
    if n > 0 {
        assert(entries[0].time() != t);
        assert forall|i: int| 0 <= i < n - 1 implies (#[trigger] entries.skip(1)[i]).time() != t by {
            assert(entries[i + 1].time() != t);
        }
        lemma_entries_before(entries.skip(1), t, (n - 1) as nat);
    }
}

/// Where the first entry of a time stands: none of those before it has that time.
pub proof fn lemma_first_of_a_time(entries: Seq<EntryView>, t: u64, n: nat)
    requires
        n <= entries.len(),
        forall|i: int| 0 <= i < n ==> (#[trigger] entries[i]).time() != t,
        n == entries.len() || entries[n as int].time() == t,
    ensures
        entries_before(entries, t) == n,
{
    lemma_entries_before(entries, t, n);
}

/// No more entries come before the first one of a time than there are.
pub proof fn lemma_entries_before_bound(entries: Seq<EntryView>, t: u64)
    ensures
        entries_before(entries, t) <= entries.len(),
    decreases entries.len(),
{
    if entries.len() > 0 && entries[0].time() != t {
        lemma_entries_before_bound(entries.skip(1), t);
    }
}

/// The entries up to the first one of the time `t`, and with it.
pub open spec fn entries_through(entries: Seq<EntryView>, t: u64) -> Seq<EntryView> {
    let n = entries_before(entries, t) as int;
    entries.take(
        if n < entries.len() {
            n + 1
        } else {
            n
        },
    )
}

/// The number of entries before the first one of a time.
fn find_entry(entries: &Vec<HistoryEntry>, t: u64) -> (n: usize)
    ensures
        n <= entries.len(),
        n == entries_before(history::views(entries@), t),
{
    let ghost v = history::views(entries@);
    let mut n: usize = 0;
    while n < entries.len() && entries[n].time() != t
        invariant
            n <= entries.len(),
            v == history::views(entries@),
            forall|j: int| 0 <= j < n ==> (#[trigger] v[j]).time() != t,
        decreases entries.len() - n,
    {
        assert(v[n as int] == entries@[n as int]@);
        n += 1;
    }
    proof {
        if n < entries.len() {
            assert(v[n as int] == entries@[n as int]@);
        }
        lemma_entries_before(v, t, n as nat);
    }
    n
}

/// Compares the version of the first entry of a time with the version before it.
pub fn get_entry_diff(entries: &Vec<HistoryEntry>, target_timestamp: u64) -> (r: Result<
    EntryFullDiff,
    HistoryError,
>)
    requires
        history::runs(
            Seq::empty(),
            entries_through(history::views(entries@), target_timestamp),
        ),
    ensures
        change_view(r) == change_at(history::views(entries@), target_timestamp),
{
    let ghost v = history::views(entries@);
    let n = find_entry(entries, target_timestamp);
    if n == entries.len() {
        return Err(HistoryError::EntryNotFound);
    }
    let empty: String = String::new();
    assert(empty@ =~= Seq::empty());
    assert(v[n as int] == entries@[n as int]@);
    proof {
        let through = entries_through(v, target_timestamp);
        assert(through.drop_last() =~= v.take(n as int));
        assert(through.last() == v[n as int]);
        assert(v.subrange(0, n as int) =~= v.take(n as int));
    }
    let before = match try_run(empty, entries, 0, n) {
        Some(before) => before,
        None => return Err(HistoryError::EntryNotFound),
    };
    let after = give(before.as_str(), &entries[n]);
    full_diff_of(target_timestamp, before.as_str(), &after)
}

/// Compares the version of the first entry of a time with the version before it, if every delta
/// that is needed decodes.
pub fn try_get_entry_diff(entries: &Vec<HistoryEntry>, target_timestamp: u64) -> (r: Option<
    Result<EntryFullDiff, HistoryError>,
>)
    ensures
        match r {
            Some(r) => history::runs(
                Seq::empty(),
                entries_through(history::views(entries@), target_timestamp),
            ) && change_view(r) == change_at(history::views(entries@), target_timestamp),
            None => !history::runs(
                Seq::empty(),
                entries_through(history::views(entries@), target_timestamp),
            ),
        },
{
    let ghost v = history::views(entries@);
    let n = find_entry(entries, target_timestamp);
    let end = if n < entries.len() {
        n + 1
    } else {
        n
    };
    let empty: String = String::new();
    assert(empty@ =~= Seq::empty());
    assert(v.subrange(0, end as int) =~= entries_through(v, target_timestamp));
    match try_run(empty, entries, 0, end) {
        Some(_) => Some(get_entry_diff(entries, target_timestamp)),
        None => None,
    }
}

/// What changed since a document was last saved.
#[derive(Debug)]
pub struct UnsavedDiffResult {
    pub saved_content: String,
    pub latest_content: String,
    pub diff_lines: Vec<DiffLine>,
    pub unsaved_count: usize,
    pub last_saved_timestamp: u64,
}

/// What changed since a document was last saved.
pub struct UnsavedView {
    pub saved_content: Seq<char>,
    pub latest_content: Seq<char>,
    pub diff_lines: Seq<(Seq<char>, Seq<char>)>,
    pub unsaved_count: int,
    pub last_saved_timestamp: u64,
}

impl View for UnsavedDiffResult {
    type V = UnsavedView;

    open spec fn view(&self) -> UnsavedView {
        UnsavedView {
            saved_content: self.saved_content@,
            latest_content: self.latest_content@,
            diff_lines: line_diff::diff_views(self.diff_lines@),
            unsaved_count: self.unsaved_count as int,
            last_saved_timestamp: self.last_saved_timestamp,
        }
    }
}

impl Clone for UnsavedDiffResult {
    fn clone(&self) -> (r: Self)
        ensures
            r@ == self@,
    {
        UnsavedDiffResult {
            saved_content: self.saved_content.clone(),
            latest_content: self.latest_content.clone(),
            diff_lines: clone_diff(&self.diff_lines),
            unsaved_count: self.unsaved_count,
            last_saved_timestamp: self.last_saved_timestamp,
        }
    }
}

/// The position of the last entry whose version was saved.
pub open spec fn last_saved(entries: Seq<EntryView>) -> Option<int>
    decreases entries.len(),
{
    if entries.len() == 0 {
        None
    } else if entries.last().saved() {
        Some(entries.len() - 1)
    } else {
        last_saved(entries.drop_last())
    }
}

/// The latest version of some entries, or else an empty document.
pub open spec fn latest_or_empty(entries: Seq<EntryView>) -> Seq<char> {
    match history::latest(entries) {
        Some(version) => version,
        None => Seq::empty(),
    }
}

/// How the lines of two versions are shown: compared, where the versions could be compared, and
/// else one after the other.
pub open spec fn shown(old: Seq<char>, new: Seq<char>, comparable: bool) -> Seq<
    (Seq<char>, Seq<char>),
> {
    if comparable {
        line_diff::line_diff(old, new)
    } else {
        line_diff::whole_diff(old, new)
    }
}

/// What changed since the last save, if there was one and something was recorded since.
pub open spec fn unsaved(entries: Seq<EntryView>, comparable: bool) -> Option<UnsavedView> {
    match last_saved(entries) {
        None => None,
        Some(k) => if k + 1 == entries.len() {
            None
        } else {
            let saved_content = latest_or_empty(entries.take(k + 1));
            let latest_content = history::run_from(saved_content, entries.skip(k + 1));
            Some(
                UnsavedView {
                    saved_content,
                    latest_content,
                    diff_lines: shown(saved_content, latest_content, comparable),
                    unsaved_count: entries.len() - k - 1,
                    last_saved_timestamp: entries[k].time(),
                },
            )
        },
    }
}

/// The view of what changed.
pub open spec fn unsaved_view(u: Option<UnsavedDiffResult>) -> Option<UnsavedView> {
    match u {
        Some(u) => Some(u@),
        None => None,
    }
}

/// Compares the last saved version with the latest one.
pub fn unsaved_diff_of(
    saved_content: String,
    latest_content: String,
    comparable: bool,
    unsaved_count: usize,
    last_saved_timestamp: u64,
) -> (u: UnsavedDiffResult)
    ensures
        u@ == (UnsavedView {
            saved_content: saved_content@,
            latest_content: latest_content@,
            diff_lines: shown(saved_content@, latest_content@, comparable),
            unsaved_count: unsaved_count as int,
            last_saved_timestamp,
        }),
{
    let diff_lines = if comparable {
        diff_of_lines(saved_content.as_str(), latest_content.as_str())
    } else {
        diff_of_all_lines(saved_content.as_str(), latest_content.as_str())
    };
    UnsavedDiffResult {
        saved_content,
        latest_content,
        diff_lines,
        unsaved_count,
        last_saved_timestamp,
    }
}

/// Where a document was last saved, and whether anything was recorded since.
fn find_last_saved(entries: &Vec<HistoryEntry>) -> (found: Option<usize>)
    ensures
        match found {
            Some(k) => last_saved(history::views(entries@)) == Some(k as int),
            None => last_saved(history::views(entries@)) is None,
        },
{
    let ghost v = history::views(entries@);
    let mut n: usize = entries.len();
    assert(v.take(n as int) =~= v);
    while n > 0
        invariant
            n <= entries.len(),
            v == history::views(entries@),
            last_saved(v) == last_saved(v.take(n as int)),
        decreases n,
    {
        assert(v[n - 1] == entries@[n - 1]@);
        assert(v.take(n as int).last() == v[n - 1]);
        assert(v.take(n as int).drop_last() =~= v.take(n - 1));
        if entries[n - 1].saved() {
            return Some(n - 1);
        }
        n -= 1;
    }
    None
}

/// Every delta decodes that is needed to see what changed since the last save.
pub open spec fn unsaved_runs(entries: Seq<EntryView>) -> bool {
    last_saved(entries) matches Some(k) ==> k + 1 < entries.len() ==> history::ends_well(
        entries.take(k + 1),
    ) && history::runs(latest_or_empty(entries.take(k + 1)), entries.skip(k + 1))
}

/// The versions at the last save and at the end of a history, and the position of the save.
struct SavedAndLatest {
    position: usize,
    saved_content: String,
    latest_content: String,
}

/// What was saved last and what came of it, if something was recorded since, and every delta that
/// is needed decodes.
fn saved_and_latest(entries: &Vec<HistoryEntry>) -> (r: Option<Option<SavedAndLatest>>)
    ensures
        r is Some == unsaved_runs(history::views(entries@)),
        match r {
            Some(Some(found)) => {
                let v = history::views(entries@);
                let k = found.position as int;
                &&& last_saved(v) == Some(k)
                &&& 0 <= k && k + 1 < v.len()
                &&& found.saved_content@ == latest_or_empty(v.take(k + 1))
                &&& found.latest_content@ == history::run_from(
                    found.saved_content@,
                    v.skip(k + 1),
                )
            },
            Some(None) => match last_saved(history::views(entries@)) {
                Some(k) => k + 1 == entries.len(),
                None => true,
            },
            None => true,
        },
{
    let ghost v = history::views(entries@);
    let position = match find_last_saved(entries) {
        Some(k) => k,
        None => return Some(None),
    };
    proof {
        lemma_last_saved_range(v);
        assert(v.subrange(position + 1, v.len() as int) =~= v.skip(position + 1));
    }
    if entries.len() - position == 1 {
        return Some(None);
    }
    let saved_content = match try_version_of_first(entries, position + 1) {
        Some(Some(version)) => version,
        Some(None) => {
            let empty: String = String::new();
            assert(empty@ =~= Seq::empty());
            empty
        },
        None => return None,
    };
    match try_run(saved_content.clone(), entries, position + 1, entries.len()) {
        Some(latest_content) => Some(
            Some(SavedAndLatest { position, saved_content, latest_content }),
        ),
        None => None,
    }
}

/// What changed since a document was last saved: nothing, if it never was, or if nothing was
/// recorded since.
pub fn get_unsaved_diff(entries: &Vec<HistoryEntry>) -> (u: Option<UnsavedDiffResult>)
    requires
        unsaved_runs(history::views(entries@)),
    ensures
        unsaved_view(u) == unsaved(history::views(entries@), true),
{
    match saved_and_latest(entries) {
        Some(Some(found)) => {
            assert(history::views(entries@)[found.position as int]
                == entries@[found.position as int]@);
            let comparable = difference(
                found.saved_content.as_str(),
                found.latest_content.as_str(),
            ).is_ok();
            let time = entries[found.position].time();
            let unsaved_count: usize = entries.len() - found.position - 1;
            Some(
                unsaved_diff_of(
                    found.saved_content,
                    found.latest_content,
                    comparable,
                    unsaved_count,
                    time,
                ),
            )
        },
        _ => None,
    }
}

/// What changed since a document was last saved, if every delta that is needed decodes.
pub fn try_get_unsaved_diff(entries: &Vec<HistoryEntry>) -> (r: Option<Option<UnsavedDiffResult>>)
    ensures
        match r {
            Some(u) => unsaved_runs(history::views(entries@)) && unsaved_view(u) == unsaved(
                history::views(entries@),
                true,
            ),
            None => !unsaved_runs(history::views(entries@)),
        },
{
    match saved_and_latest(entries) {
        Some(_) => Some(get_unsaved_diff(entries)),
        None => None,
    }
}

/// Where the last entry is whose version was saved.
pub proof fn lemma_last_saved_range(entries: Seq<EntryView>)
    ensures
        last_saved(entries) matches Some(k) ==> 0 <= k < entries.len() && entries[k].saved()
            && forall|i: int| k < i < entries.len() ==> !(#[trigger] entries[i]).saved(),
        last_saved(entries) is None ==> forall|i: int|
            0 <= i < entries.len() ==> !(#[trigger] entries[i]).saved(),
    decreases entries.len(),
{
    if entries.len() > 0 {
        lemma_last_saved_range(entries.drop_last());
        assert forall|i: int| 0 <= i < entries.len() - 1 implies entries.drop_last()[i]
            == #[trigger] entries[i] by {}
    }
}

/// Where a document was saved at a time at which its history had begun, what changed since leads to
/// the latest version of the history.
pub proof fn law_unsaved_changes_lead_to_the_latest(entries: Seq<EntryView>, comparable: bool)
    requires
        unsaved(entries, comparable) is Some,
        history::latest(entries.take(last_saved(entries)->0 + 1)) is Some,
    ensures
        Some(unsaved(entries, comparable)->0.latest_content) == history::latest(entries),
        Some(unsaved(entries, comparable)->0.saved_content) == history::latest(
            entries.take(last_saved(entries)->0 + 1),
        ),
{
    lemma_last_saved_range(entries);
    let k = last_saved(entries)->0;
    let head = entries.take(k + 1);
    let rest = entries.skip(k + 1);
    assert(entries =~= head + rest);
    history::lemma_latest_appends(head, rest);
}

/// In a history that begins with a snapshot, what the entry of a time changed lies between the
/// version before it and the version that is restored at its time, where the entry is the last of
/// that time and none before it is later.
pub proof fn law_change_leads_to_the_restored_version(entries: Seq<EntryView>, t: u64)
    requires
        t > 0,
        entries.len() > 0,
        entries[0] is Snapshot,
        0 < entries_before(entries, t) < entries.len(),
        history::up_to(entries, t) == entries.take((entries_before(entries, t) + 1) as int),
        change_at(entries, t) is Ok,
    ensures
        ({
            let n = entries_before(entries, t) as int;
            let before = history::latest(entries.take(n))->0;
            let after = history::restored(entries, t)->Ok_0;
            &&& history::latest(entries.take(n)) is Some
            &&& history::restored(entries, t) is Ok
            &&& change_at(entries, t)->Ok_0 == (FullDiffView {
                timestamp: t,
                diff_lines: line_diff::line_diff(before, after),
            })
        }),
{
    let n = entries_before(entries, t) as int;
    history::lemma_run_is_latest(entries.take(n));
    history::lemma_run_is_latest(entries.take(n + 1));
    assert(entries.take(n + 1).drop_last() =~= entries.take(n));
    assert(entries.take(n + 1).last() == entries[n]);
}

} // verus!
