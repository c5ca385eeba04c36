//! The entries of a history file, and the versions of a document that they hold.
use vstd::prelude::*;

use crate::delta;
use crate::delta::{apply_delta, DeltaFault};
use crate::lines;
use crate::order;

verus! {

/// An entry of a history: a whole version of a document, or a delta from the version before. `t`
/// is the time in seconds, `p` the path of the document.
#[derive(Debug)]
pub enum HistoryEntry {
    Snapshot { t: u64, p: String, c: String, saved: bool },
    Delta { t: u64, p: String, d: String, saved: bool },
}

/// What an entry says.
pub enum EntryView {
    Snapshot { t: u64, p: Seq<char>, c: Seq<char>, saved: bool },
    Delta { t: u64, p: Seq<char>, d: Seq<char>, saved: bool },
}

impl View for HistoryEntry {
    type V = EntryView;

    open spec fn view(&self) -> EntryView {
        match self {
            HistoryEntry::Snapshot { t, p, c, saved } => EntryView::Snapshot {
                t: *t,
                p: p@,
                c: c@,
                saved: *saved,
            },
            HistoryEntry::Delta { t, p, d, saved } => EntryView::Delta {
                t: *t,
                p: p@,
                d: d@,
                saved: *saved,
            },
        }
    }
}

impl EntryView {
    pub open spec fn time(self) -> u64 {
        match self {
            EntryView::Snapshot { t, .. } => t,
            EntryView::Delta { t, .. } => t,
        }
    }

    pub open spec fn path(self) -> Seq<char> {
        match self {
            EntryView::Snapshot { p, .. } => p,
            EntryView::Delta { p, .. } => p,
        }
    }

    pub open spec fn saved(self) -> bool {
        match self {
            EntryView::Snapshot { saved, .. } => saved,
            EntryView::Delta { saved, .. } => saved,
        }
    }

    /// The delta of an entry, if it has one, decodes where it is applied to the text `current`.
    pub open spec fn applies(self, current: Seq<char>) -> bool {
        self matches EntryView::Delta { d, .. } ==> delta::decodes(current.len(), d)
    }
}

impl Clone for HistoryEntry {
    fn clone(&self) -> (r: Self)
        ensures
            r@ == self@,
    {
        match self {
            HistoryEntry::Snapshot { t, p, c, saved } => HistoryEntry::Snapshot {
                t: *t,
                p: p.clone(),
                c: c.clone(),
                saved: *saved,
            },
            HistoryEntry::Delta { t, p, d, saved } => HistoryEntry::Delta {
                t: *t,
                p: p.clone(),
                d: d.clone(),
                saved: *saved,
            },
        }
    }
}

impl HistoryEntry {
    /// The time of an entry.
    pub fn time(&self) -> (t: u64)
        ensures
            t == self@.time(),
    {
        match self {
            HistoryEntry::Snapshot { t, .. } => *t,
            HistoryEntry::Delta { t, .. } => *t,
        }
    }

    /// The path that an entry names.
    pub fn path(&self) -> (p: &String)
        ensures
            p@ == self@.path(),
    {
        match self {
            HistoryEntry::Snapshot { p, .. } => p,
            HistoryEntry::Delta { p, .. } => p,
        }
    }

    /// Whether the version of an entry was also saved to the document's file.
    pub fn saved(&self) -> (saved: bool)
        ensures
            saved == self@.saved(),
    {
        match self {
            HistoryEntry::Snapshot { saved, .. } => *saved,
            HistoryEntry::Delta { saved, .. } => *saved,
        }
    }

    /// Whether an entry is a whole version.
    pub fn is_snapshot(&self) -> (b: bool)
        ensures
            b == (self@ is Snapshot),
    {
        match self {
            HistoryEntry::Snapshot { .. } => true,
            HistoryEntry::Delta { .. } => false,
        }
    }
}

/// The views of some entries.
pub open spec fn views(entries: Seq<HistoryEntry>) -> Seq<EntryView> {
    entries.map_values(|e: HistoryEntry| e@)
}

/// A line of a history file, with the entry that it holds, if it holds one.
#[derive(Debug)]
pub struct HistoryLine {
    pub text: String,
    pub entry: Option<HistoryEntry>,
}

/// What a line of a history file holds: nothing, where it is blank or broken.
pub open spec fn entry_in(line: HistoryLine) -> Option<EntryView> {
    match line.entry {
        Some(e) => if lines::is_blank(line.text@) {
            None
        } else {
            Some(e@)
        },
        None => None,
    }
}

/// The entries of a history file, in order. Blank and broken lines hold none.
pub open spec fn entries_in(file: Seq<HistoryLine>) -> Seq<EntryView>
    decreases file.len(),
{
    if file.len() == 0 {
        Seq::empty()
    } else {
        match entry_in(file.last()) {
            Some(e) => entries_in(file.drop_last()).push(e),
            None => entries_in(file.drop_last()),
        }
    }
}

/// The entries of a history file, in order.
pub fn entries_of(file: &Vec<HistoryLine>) -> (entries: Vec<HistoryEntry>)
    ensures
        views(entries@) == entries_in(file@),
{
    let mut entries: Vec<HistoryEntry> = Vec::new();
    let mut i: usize = 0;
    assert(views(entries@) =~= entries_in(file@.take(0)));
    while i < file.len()
        invariant
            i <= file.len(),
            views(entries@) == entries_in(file@.take(i as int)),
        decreases file.len() - i,
    {
        assert(file@.take(i + 1).drop_last() =~= file@.take(i as int));
        let ghost before = views(entries@);
        if !lines::blank(file[i].text.as_str()) {
            if let Some(e) = &file[i].entry {
                entries.push(e.clone());
                assert(views(entries@) =~= before.push(e@));
            }
        }
        i += 1;
    }
    assert(file@.take(file@.len() as int) =~= file@);
    entries
}

/// What becomes of a text where a delta was applied: a delta that fails changes nothing.
pub open spec fn taken(current: Seq<char>, made: Result<Seq<char>, DeltaFault>) -> Seq<char> {
    match made {
        Ok(new) => new,
        Err(_) => current,
    }
}

/// What becomes of a text where a delta was applied: a delta that fails changes nothing.
pub fn keep_or_take(current: String, made: Result<String, DeltaFault>) -> (r: String)
    ensures
        r@ == taken(current@, delta::applied(made)),
{
    match made {
        Ok(new) => new,
        Err(_) => current,
    }
}

/// The version that follows on `current`.
pub open spec fn version_after(current: Seq<char>, e: EntryView) -> Seq<char> {
    match e {
        EntryView::Snapshot { c, .. } => c,
        EntryView::Delta { d, .. } => taken(current, delta::delta_result(current, d)),
    }
}

/// The version that some entries lead to from the text `start`.
pub open spec fn run_from(start: Seq<char>, entries: Seq<EntryView>) -> Seq<char>
    decreases entries.len(),
{
    if entries.len() == 0 {
        start
    } else {
        version_after(run_from(start, entries.drop_last()), entries.last())
    }
}

/// The latest version that some entries hold: none before the first snapshot.
pub open spec fn latest(entries: Seq<EntryView>) -> Option<Seq<char>>
    decreases entries.len(),
{
    if entries.len() == 0 {
        None
    } else {
        match (latest(entries.drop_last()), entries.last()) {
            (_, EntryView::Snapshot { c, .. }) => Some(c),
            (Some(s), e) => Some(version_after(s, e)),
            (None, _) => None,
        }
    }
}

/// The number of deltas that were applied since the last snapshot.
pub open spec fn deltas_since_snapshot(entries: Seq<EntryView>) -> nat
    decreases entries.len(),
{
    if entries.len() == 0 {
        0
    } else {
        let front = entries.drop_last();
        match (latest(front), entries.last()) {
            (Some(s), EntryView::Delta { d, .. }) => if delta::delta_result(s, d) is Ok {
                deltas_since_snapshot(front) + 1
            } else {
                deltas_since_snapshot(front)
            },
            (None, EntryView::Delta { .. }) => deltas_since_snapshot(front),
            (_, EntryView::Snapshot { .. }) => 0,
        }
    }
}

/// Every delta among some entries decodes where it is applied, if they are run from `start`.
pub open spec fn runs(start: Seq<char>, entries: Seq<EntryView>) -> bool
    decreases entries.len(),
{
    entries.len() == 0 || runs(start, entries.drop_last()) && entries.last().applies(
        run_from(start, entries.drop_last()),
    )
}

/// Whether the delta of an entry, if it has one, decodes where it is applied to a text.
pub(crate) fn can_follow(current: &str, e: &HistoryEntry) -> (ok: bool)
    ensures
        ok == e@.applies(current@),
{
    match e {
        HistoryEntry::Snapshot { .. } => true,
        HistoryEntry::Delta { d, .. } => delta::delta_decodes(current, d.as_str()),
    }
}

pub(crate) fn follow(current: String, e: &HistoryEntry) -> (r: String)
    requires
        e@.applies(current@),
    ensures
        r@ == version_after(current@, e@),
{
    match e {
        HistoryEntry::Snapshot { c, .. } => c.clone(),
        HistoryEntry::Delta { d, .. } => {
            let made = apply_delta(current.as_str(), d.as_str());
            keep_or_take(current, made)
        },
    }
}

/// Once there is a version, the entries that follow are run from it.
pub proof fn lemma_latest_appends(a: Seq<EntryView>, b: Seq<EntryView>)
    ensures
        latest(a) matches Some(s) ==> latest(a + b) == Some(run_from(s, b)),
    decreases b.len(),
{
    if b.len() == 0 {
        assert(a + b =~= a);
    } else {
        lemma_latest_appends(a, b.drop_last());
        assert((a + b).drop_last() =~= a + b.drop_last());
    }
}

/// Runs the entries from `from` up to `to`, if every delta among them decodes.
pub(crate) fn try_run(start: String, entries: &Vec<HistoryEntry>, from: usize, to: usize) -> (r:
    Option<String>)
    requires
        from <= to <= entries.len(),
    ensures
        match r {
            Some(s) => runs(start@, views(entries@).subrange(from as int, to as int)) && s@
                == run_from(start@, views(entries@).subrange(from as int, to as int)),
            None => !runs(start@, views(entries@).subrange(from as int, to as int)),
        },
{
    let ghost v = views(entries@);
    let ghost start_view = start@;
    let mut current: String = start;
    let mut i: usize = from;
    assert(v.subrange(from as int, from as int) =~= Seq::empty());
    while i < to
        invariant
            from <= i <= to <= entries.len(),
            v == views(entries@),
            start_view == start@,
            runs(start_view, v.subrange(from as int, i as int)),
            current@ == run_from(start_view, v.subrange(from as int, i as int)),
        decreases to - i,
    {
        assert(v[i as int] == entries@[i as int]@);
        assert(v.subrange(from as int, i + 1).drop_last() =~= v.subrange(from as int, i as int));
        assert(v.subrange(from as int, i + 1).last() == v[i as int]);
        if !can_follow(current.as_str(), &entries[i]) {
            proof {
                lemma_runs_no_further(start_view, v.subrange(from as int, to as int), i + 1 - from);
                assert(v.subrange(from as int, to as int).take(i + 1 - from) =~= v.subrange(
                    from as int,
                    i + 1,
                ));
            }
            return None;
        }
        current = follow(current, &entries[i]);
        i += 1;
    }
    Some(current)
}

/// Entries run only if their beginning does.
pub proof fn lemma_runs_no_further(start: Seq<char>, entries: Seq<EntryView>, n: int)
    requires
        0 <= n <= entries.len(),
    ensures
        runs(start, entries) ==> runs(start, entries.take(n)),
    decreases entries.len(),
{
    if n == entries.len() {
        assert(entries.take(n) =~= entries);
    } else {
        assert(entries.drop_last().take(n) =~= entries.take(n));
        lemma_runs_no_further(start, entries.drop_last(), n);
    }
}

/// The entries before the first one that is later than `target`.
pub open spec fn up_to(entries: Seq<EntryView>, target: u64) -> Seq<EntryView>
    decreases entries.len(),
{
    if entries.len() == 0 || entries[0].time() > target {
        Seq::empty()
    } else {
        seq![entries[0]] + up_to(entries.skip(1), target)
    }
}

/// The entries before the first one that is later than `target`, given their number.
pub proof fn lemma_up_to(entries: Seq<EntryView>, target: u64, n: nat)
    requires
        n <= entries.len(),
        forall|i: int| 0 <= i < n ==> (#[trigger] entries[i]).time() <= target,
        n == entries.len() || entries[n as int].time() > target,
    ensures
        up_to(entries, target) == entries.take(n as int),
    decreases n,
{
    if n == 0 {
        assert(entries.take(0) =~= Seq::empty());
    } else {
        assert(entries[0].time() <= target);
        assert forall|i: int| 0 <= i < n - 1 implies (#[trigger] entries.skip(1)[i]).time()
            <= target by {
            assert(entries[i + 1].time() <= target);
        }
        lemma_up_to(entries.skip(1), target, (n - 1) as nat);
        assert(entries.take(n as int) =~= seq![entries[0]] + entries.skip(1).take(n - 1));
    }
}

/// Why something could not be had from a history.
#[derive(Clone, Copy, Debug, PartialEq, Eq, Structural)]
pub enum HistoryError {
    NoEntries,
    NoSnapshot,
    EntryNotFound,
    Delta(DeltaFault),
}

/// How a fault of a delta is called.
pub open spec fn fault_name(fault: DeltaFault) -> Seq<char> {
    match fault {
        DeltaFault::InvalidInput => "InvalidInput"@,
        DeltaFault::Utf8Error => "Utf8Error"@,
        DeltaFault::HtmlWithError => "HtmlWithError"@,
    }
}

impl HistoryError {
    /// What the user is told.
    pub open spec fn said(self) -> Seq<char> {
        match self {
            HistoryError::NoEntries => "No history entries"@,
            HistoryError::NoSnapshot => "No snapshot found"@,
            HistoryError::EntryNotFound => "Entry not found"@,
            HistoryError::Delta(fault) => "Delta error: "@ + fault_name(fault),
        }
    }

    /// What the user is told.
    pub fn message(&self) -> (s: String)
        ensures
            s@ == self.said(),
    {
        match self {
            HistoryError::NoEntries => "No history entries".to_owned(),
            HistoryError::NoSnapshot => "No snapshot found".to_owned(),
            HistoryError::EntryNotFound => "Entry not found".to_owned(),
            HistoryError::Delta(DeltaFault::InvalidInput) => crate::text::join(
                "Delta error: ",
                "InvalidInput",
            ),
            HistoryError::Delta(DeltaFault::Utf8Error) => crate::text::join(
                "Delta error: ",
                "Utf8Error",
            ),
            HistoryError::Delta(DeltaFault::HtmlWithError) => crate::text::join(
                "Delta error: ",
                "HtmlWithError",
            ),
        }
    }
}

/// The time up to which a version is restored; zero stands for the end of the history.
pub open spec fn end_time(target_timestamp: u64) -> u64 {
    if target_timestamp == 0 {
        u64::MAX
    } else {
        target_timestamp
    }
}

/// Every delta after the last snapshot decodes where it is applied.
pub open spec fn ends_well(entries: Seq<EntryView>) -> bool
    decreases entries.len(),
{
    entries.len() == 0 || entries.last() is Snapshot || {
        &&& ends_well(entries.drop_last())
        &&& latest(entries.drop_last()) matches Some(version) ==> entries.last().applies(version)
    }
}

/// The version of a document at a time; the time zero stands for the end of the history.
pub open spec fn restored(entries: Seq<EntryView>, target_timestamp: u64) -> Result<
    Seq<char>,
    HistoryError,
> {
    if entries.len() == 0 {
        Err(HistoryError::NoEntries)
    } else {
        match latest(up_to(entries, end_time(target_timestamp))) {
            Some(version) => Ok(version),
            None => Err(HistoryError::NoSnapshot),
        }
    }
}

/// The contents of a restored version.
pub open spec fn restored_text(r: Result<String, HistoryError>) -> Result<Seq<char>, HistoryError> {
    match r {
        Ok(s) => Ok(s@),
        Err(e) => Err(e),
    }
}

proof fn lemma_ends_well(head: Seq<EntryView>, tail: Seq<EntryView>)
    requires
        head.len() > 0,
        head.last() is Snapshot,
        forall|i: int| 0 <= i < tail.len() ==> (#[trigger] tail[i]) is Delta,
    ensures
        latest(head) is Some,
        ends_well(head + tail) == runs(latest(head)->0, tail),
    decreases tail.len(),
{
    if tail.len() == 0 {
        assert(head + tail =~= head);
    } else {
        let front = tail.drop_last();
        assert(tail.last() is Delta);
        assert forall|i: int| 0 <= i < front.len() implies (#[trigger] front[i]) is Delta by {
            assert(tail[i] is Delta);
        }
        lemma_ends_well(head, front);
        lemma_latest_appends(head, front);
        assert((head + tail).drop_last() =~= head + front);
        assert((head + tail).last() == tail.last());
    }
}

proof fn lemma_no_snapshot_ends_well(entries: Seq<EntryView>)
    requires
        forall|i: int| 0 <= i < entries.len() ==> (#[trigger] entries[i]) is Delta,
    ensures
        ends_well(entries),
        latest(entries) is None,
    decreases entries.len(),
{
    if entries.len() > 0 {
        let front = entries.drop_last();
        assert(entries.last() is Delta);
        assert forall|i: int| 0 <= i < front.len() implies (#[trigger] front[i]) is Delta by {
            assert(entries[i] is Delta);
        }
        lemma_no_snapshot_ends_well(front);
    }
}

/// The latest version of the first `n` entries, if every delta that is needed decodes.
pub(crate) fn try_version_of_first(entries: &Vec<HistoryEntry>, n: usize) -> (r: Option<
    Option<String>,
>)
    requires
        n <= entries.len(),
    ensures
        match r {
            Some(version) => ends_well(views(entries@).take(n as int)) && crate::text::content_of(
                version,
            ) == latest(views(entries@).take(n as int)),
            None => !ends_well(views(entries@).take(n as int)),
        },
{
    let ghost v = views(entries@);
    let mut k: usize = n;
    while k > 0
        invariant
            k <= n <= entries.len(),
            v == views(entries@),
            forall|i: int| k <= i < n ==> (#[trigger] v[i]) is Delta,
        decreases k,
    {
        assert(v[k - 1] == entries@[k - 1]@);
        if let HistoryEntry::Snapshot { c, .. } = &entries[k - 1] {
            let ghost head = v.take(k as int);
            let ghost tail = v.subrange(k as int, n as int);
            proof {
                assert(head.last() == v[k - 1]);
                assert forall|i: int| 0 <= i < tail.len() implies (#[trigger] tail[i]) is Delta by {
                    assert(v[i + k] is Delta);
                }
                lemma_ends_well(head, tail);
                lemma_latest_appends(head, tail);
                assert(v.take(n as int) =~= head + tail);
            }
            return match try_run(c.clone(), entries, k, n) {
                Some(version) => Some(Some(version)),
                None => None,
            };
        }
        k -= 1;
    }
    proof {
        lemma_no_snapshot_ends_well(v.take(n as int));
    }
    Some(None)
}

/// The number of entries before the first one that is later than `target`.
fn count_up_to(entries: &Vec<HistoryEntry>, target: u64) -> (n: usize)
    ensures
        n <= entries.len(),
        up_to(views(entries@), target) == views(entries@).take(n as int),
{
    let ghost v = views(entries@);
    let mut n: usize = 0;
    while n < entries.len() && entries[n].time() <= target
        invariant
            n <= entries.len(),
            v == views(entries@),
            forall|i: int| 0 <= i < n ==> (#[trigger] v[i]).time() <= target,
        decreases entries.len() - n,
    {
        assert(v[n as int] == entries@[n as int]@);
        n += 1;
    }
    proof {
        if n < entries.len() {
            assert(v[n as int] == entries@[n as int]@);
        }
        lemma_up_to(v, target, n as nat);
    }
    n
}

fn target_of(target_timestamp: u64) -> (t: u64)
    ensures
        t == end_time(target_timestamp),
{
    if target_timestamp == 0 {
        u64::MAX
    } else {
        target_timestamp
    }
}

/// Restores the version of a document at a time; the time zero stands for the end of the history.
pub fn restore_at(entries: &Vec<HistoryEntry>, target_timestamp: u64) -> (r: Result<
    String,
    HistoryError,
>)
    requires
        ends_well(up_to(views(entries@), end_time(target_timestamp))),
    ensures
        restored_text(r) == restored(views(entries@), target_timestamp),
{
    if entries.len() == 0 {
        return Err(HistoryError::NoEntries);
    }
    let n = count_up_to(entries, target_of(target_timestamp));
    match try_version_of_first(entries, n) {
        Some(Some(version)) => Ok(version),
        _ => Err(HistoryError::NoSnapshot),
    }
}

/// Restores the version of a document at a time, if every delta that is needed decodes.
pub fn try_restore_at(entries: &Vec<HistoryEntry>, target_timestamp: u64) -> (r: Option<
    Result<String, HistoryError>,
>)
    ensures
        match r {
            Some(r) => ends_well(up_to(views(entries@), end_time(target_timestamp)))
                && restored_text(r) == restored(views(entries@), target_timestamp),
            None => !ends_well(up_to(views(entries@), end_time(target_timestamp))),
        },
{
    let n = count_up_to(entries, target_of(target_timestamp));
    match try_version_of_first(entries, n) {
        Some(_) => Some(restore_at(entries, target_timestamp)),
        None => None,
    }
}

/// The time zero restores the latest version.
pub proof fn law_zero_restores_the_latest(entries: Seq<EntryView>)
    ensures
        up_to(entries, end_time(0)) == entries,
        latest(entries) matches Some(version) ==> restored(entries, 0) == Ok::<
            Seq<char>,
            HistoryError,
        >(version),
{
    lemma_up_to(entries, u64::MAX, entries.len());
    assert(entries.take(entries.len() as int) =~= entries);
}

/// What is written after a time does not change the version at that time.
pub proof fn law_later_entries_change_nothing(
    entries: Seq<EntryView>,
    later: Seq<EntryView>,
    target_timestamp: u64,
)
    requires
        entries.len() > 0,
        later.len() > 0 ==> later[0].time() > end_time(target_timestamp),
    ensures
        restored(entries + later, target_timestamp) == restored(entries, target_timestamp),
{
    lemma_up_to_stops(entries, later, end_time(target_timestamp));
}

proof fn lemma_up_to_stops(entries: Seq<EntryView>, later: Seq<EntryView>, target: u64)
    requires
        later.len() > 0 ==> later[0].time() > target,
    ensures
        up_to(entries + later, target) == up_to(entries, target),
    decreases entries.len(),
{
    if entries.len() == 0 {
        assert(entries + later =~= later);
    } else {
        assert((entries + later)[0] == entries[0]);
        assert((entries + later).skip(1) =~= entries.skip(1) + later);
        lemma_up_to_stops(entries.skip(1), later, target);
    }
}

/// The latest version of a history, with the number of deltas since its last snapshot.
pub open spec fn last_state(entries: Seq<EntryView>) -> Option<(Seq<char>, nat)> {
    match latest(entries) {
        Some(version) => Some((version, deltas_since_snapshot(entries))),
        None => None,
    }
}

/// A version and a count, as they are stored.
pub open spec fn state_view(state: Option<(String, u32)>) -> Option<(Seq<char>, nat)> {
    match state {
        Some((s, n)) => Some((s@, n as nat)),
        None => None,
    }
}

/// No more deltas are counted than there are entries.
pub proof fn lemma_deltas_bound(entries: Seq<EntryView>)
    ensures
        deltas_since_snapshot(entries) <= entries.len(),
        latest(entries) is None ==> deltas_since_snapshot(entries) == 0,
    decreases entries.len(),
{
    if entries.len() > 0 {
        lemma_deltas_bound(entries.drop_last());
    }
}

/// Every delta after the first snapshot decodes where it is applied.
pub open spec fn runs_well(entries: Seq<EntryView>) -> bool
    decreases entries.len(),
{
    entries.len() == 0 || {
        &&& runs_well(entries.drop_last())
        &&& latest(entries.drop_last()) matches Some(version) ==> entries.last().applies(version)
    }
}

/// Where the first entry is a snapshot, the version before it does not matter.
pub proof fn lemma_run_is_latest(entries: Seq<EntryView>)
    requires
        entries.len() > 0,
        entries[0] is Snapshot,
    ensures
        latest(entries) == Some(run_from(Seq::empty(), entries)),
        runs(Seq::empty(), entries) == runs_well(entries),
    decreases entries.len(),
{
    let front = entries.drop_last();
    if entries.len() > 1 {
        assert(front[0] == entries[0]);
        lemma_run_is_latest(front);
    } else {
        assert(runs(Seq::empty(), front));
        assert(runs_well(front));
        assert(entries.last() == entries[0]);
    }
}

/// Once there is a version, entries that run well run from it.
pub proof fn lemma_rest_runs(a: Seq<EntryView>, b: Seq<EntryView>)
    requires
        runs_well(a + b),
    ensures
        latest(a) matches Some(version) ==> runs(version, b),
    decreases b.len(),
{
    if b.len() > 0 && latest(a) is Some {
        assert((a + b).drop_last() =~= a + b.drop_last());
        lemma_rest_runs(a, b.drop_last());
        lemma_latest_appends(a, b.drop_last());
    }
}

/// The beginning of entries that run well runs well.
pub proof fn lemma_runs_well_no_further(entries: Seq<EntryView>, n: int)
    requires
        0 <= n <= entries.len(),
    ensures
        runs_well(entries) ==> runs_well(entries.take(n)),
    decreases entries.len(),
{
    if n == entries.len() {
        assert(entries.take(n) =~= entries);
    } else {
        assert(entries.drop_last().take(n) =~= entries.take(n));
        lemma_runs_well_no_further(entries.drop_last(), n);
    }
}

/// Entries that run well end well.
pub proof fn lemma_runs_well_ends_well(entries: Seq<EntryView>)
    ensures
        runs_well(entries) ==> ends_well(entries),
    decreases entries.len(),
{
    if entries.len() > 0 {
        lemma_runs_well_ends_well(entries.drop_last());
    }
}

/// The latest version of a history, with the number of deltas since its last snapshot.
pub fn get_last_state(entries: &Vec<HistoryEntry>) -> (state: Option<(String, u32)>)
    requires
        runs_well(views(entries@)),
        entries.len() <= u32::MAX,
    ensures
        state_view(state) == last_state(views(entries@)),
{
    let ghost v = views(entries@);
    let mut state: Option<(String, u32)> = None;
    let mut i: usize = 0;
    while i < entries.len()
        invariant
            i <= entries.len() <= u32::MAX,
            v == views(entries@),
            runs_well(v),
            state_view(state) == last_state(v.take(i as int)),
        decreases entries.len() - i,
    {
        assert(v[i as int] == entries@[i as int]@);
        assert(v.take(i + 1).drop_last() =~= v.take(i as int));
        assert(v.take(i + 1).last() == v[i as int]);
        proof {
            lemma_deltas_bound(v.take(i as int));
            lemma_runs_well_no_further(v, i + 1);
        }
        state = match (&entries[i], state) {
            (HistoryEntry::Snapshot { c, .. }, _) => Some((c.clone(), 0)),
            (HistoryEntry::Delta { d, .. }, Some((current, count))) => {
                match apply_delta(current.as_str(), d.as_str()) {
                    Ok(new) => Some((new, count + 1)),
                    Err(_) => Some((current, count)),
                }
            },
            (HistoryEntry::Delta { .. }, None) => None,
        };
        i += 1;
    }
    assert(v.take(i as int) =~= v);
    state
}

/// Whether every delta after the first snapshot decodes where it is applied.
pub(crate) fn entries_run_well(entries: &Vec<HistoryEntry>) -> (ok: bool)
    ensures
        ok == runs_well(views(entries@)),
{
    let ghost v = views(entries@);
    let mut current: Option<String> = None;
    let mut i: usize = 0;
    while i < entries.len()
        invariant
            i <= entries.len(),
            v == views(entries@),
            runs_well(v.take(i as int)),
            crate::text::content_of(current) == latest(v.take(i as int)),
        decreases entries.len() - i,
    {
        assert(v[i as int] == entries@[i as int]@);
        assert(v.take(i + 1).drop_last() =~= v.take(i as int));
        assert(v.take(i + 1).last() == v[i as int]);
        current = match current {
            Some(version) => {
                if !can_follow(version.as_str(), &entries[i]) {
                    proof {
                        lemma_runs_well_no_further(v, i + 1);
                    }
                    return false;
                }
                Some(follow(version, &entries[i]))
            },
            None => match &entries[i] {
                HistoryEntry::Snapshot { c, .. } => Some(c.clone()),
                HistoryEntry::Delta { .. } => None,
            },
        };
        i += 1;
    }
    assert(v.take(i as int) =~= v);
    true
}

/// The latest version of a history with the number of deltas since its last snapshot, if every
/// delta after the first snapshot decodes, and the deltas can be counted.
pub fn try_get_last_state(entries: &Vec<HistoryEntry>) -> (state: Option<Option<(String, u32)>>)
    ensures
        match state {
            Some(state) => runs_well(views(entries@)) && entries.len() <= u32::MAX && state_view(
                state,
            ) == last_state(views(entries@)),
            None => !runs_well(views(entries@)) || entries.len() > u32::MAX,
        },
{
    if entries_run_well(entries) && entries.len() <= u32::MAX as usize {
        Some(get_last_state(entries))
    } else {
        None
    }
}

/// What an entry says, without its version: `entry_type` is "snapshot" or "delta".
#[derive(Debug)]
pub struct HistoryEntryMeta {
    pub entry_type: String,
    pub timestamp: u64,
    pub file_path: String,
    pub saved: bool,
}

/// What an entry says, without its version.
pub struct MetaView {
    pub entry_type: Seq<char>,
    pub timestamp: u64,
    pub file_path: Seq<char>,
    pub saved: bool,
}

impl View for HistoryEntryMeta {
    type V = MetaView;

    open spec fn view(&self) -> MetaView {
        MetaView {
            entry_type: self.entry_type@,
            timestamp: self.timestamp,
            file_path: self.file_path@,
            saved: self.saved,
        }
    }
}

impl Clone for HistoryEntryMeta {
    fn clone(&self) -> (r: Self)
        ensures
            r@ == self@,
    {
        HistoryEntryMeta {
            entry_type: self.entry_type.clone(),
            timestamp: self.timestamp,
            file_path: self.file_path.clone(),
            saved: self.saved,
        }
    }
}

/// What an entry says, without its version.
pub open spec fn meta(e: EntryView) -> MetaView {
    MetaView {
        entry_type: if e is Snapshot {
            "snapshot"@
        } else {
            "delta"@
        },
        timestamp: e.time(),
        file_path: e.path(),
        saved: e.saved(),
    }
}

fn meta_of(e: &HistoryEntry) -> (m: HistoryEntryMeta)
    ensures
        m@ == meta(e@),
{
    let entry_type = if e.is_snapshot() {
        "snapshot".to_owned()
    } else {
        "delta".to_owned()
    };
    HistoryEntryMeta { entry_type, timestamp: e.time(), file_path: e.path().clone(), saved: e.saved() }
}

/// The times of some entries.
pub open spec fn times(entries: Seq<EntryView>) -> Seq<u64> {
    entries.map_values(|e: EntryView| e.time())
}

/// What the entries of a history say: the newest first, and among those of one time the one that
/// was written first.
pub open spec fn listing(entries: Seq<EntryView>) -> Seq<MetaView> {
    order::newest_order(times(entries)).map_values(|p: int| meta(entries[p]))
}

/// The views of some listed entries.
pub open spec fn meta_views(metas: Seq<HistoryEntryMeta>) -> Seq<MetaView> {
    metas.map_values(|m: HistoryEntryMeta| m@)
}

/// Lists what the entries of a history say: the newest first, and among those of one time the one
/// that was written first.
pub fn get_entries(entries: &Vec<HistoryEntry>) -> (metas: Vec<HistoryEntryMeta>)
    ensures
        meta_views(metas@) == listing(views(entries@)),
{
    let ghost v = views(entries@);
    let mut all: Vec<u64> = Vec::new();
    let mut i: usize = 0;
    while i < entries.len()
        invariant
            i <= entries.len(),
            v == views(entries@),
            all@ == times(v).take(i as int),
        decreases entries.len() - i,
    {
        assert(v[i as int] == entries@[i as int]@);
        all.push(entries[i].time());
        i += 1;
        assert(all@ =~= times(v).take(i as int));
    }
    assert(all@ =~= times(v));
    let sorted = order::order_newest_first(&all);
    let mut metas: Vec<HistoryEntryMeta> = Vec::new();
    let mut k: usize = 0;
    while k < sorted.len()
        invariant
            k <= sorted.len() == entries.len(),
            v == views(entries@),
            order::newest_first(times(v), order::ints(sorted@)),
            order::ints(sorted@) == order::newest_order(times(v)),
            meta_views(metas@) == listing(v).take(k as int),
        decreases sorted.len() - k,
    {
        let ghost so_far = meta_views(metas@);
        assert(order::ints(sorted@)[k as int] == sorted@[k as int]);
        let p = sorted[k];
        assert(v[p as int] == entries@[p as int]@);
        let m = meta_of(&entries[p]);
        metas.push(m);
        assert(meta_views(metas@) =~= so_far.push(m@));
        k += 1;
        assert(meta_views(metas@) =~= listing(v).take(k as int));
    }
    assert(meta_views(metas@) =~= listing(v));
    metas
}

} // verus!
