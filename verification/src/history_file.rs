//! What becomes of the lines of a history file when unsaved or old entries are dropped from it, and
//! what the index says of a file.
use vstd::prelude::*;

use crate::history;
use crate::history::{EntryView, HistoryEntry, HistoryLine};
use crate::history_diff;
use crate::lines;
use crate::text;

verus! {

/// The age, in seconds, past which entries are dropped: thirty days.
pub const CLEANUP_MAX_AGE_SECS: u64 = 2_592_000;

/// The texts of some lines.
pub open spec fn texts(file: Seq<HistoryLine>) -> Seq<Seq<char>> {
    file.map_values(|line: HistoryLine| line.text@)
}

/// The lines that are not blank.
pub open spec fn nonblank(file: Seq<HistoryLine>) -> Seq<HistoryLine> {
    file.filter(|line: HistoryLine| !lines::is_blank(line.text@))
}

/// A line that holds an entry whose version was saved.
pub open spec fn holds_saved(line: HistoryLine) -> bool {
    history::entry_in(line) matches Some(e) && e.saved()
}

/// The lines up to the last one that holds a saved entry.
pub open spec fn saved_part(file: Seq<HistoryLine>) -> Seq<HistoryLine>
    decreases file.len(),
{
    if file.len() == 0 || holds_saved(file.last()) {
        file
    } else {
        saved_part(file.drop_last())
    }
}

/// What a history file is to hold once the entries after the last save are dropped: nothing is
/// dropped where there was no save.
pub open spec fn unsaved_dropped(file: Seq<HistoryLine>) -> Option<Seq<Seq<char>>> {
    if saved_part(file).len() == 0 {
        None
    } else {
        Some(texts(nonblank(saved_part(file))))
    }
}

/// The contents of some lines that may be absent.
pub open spec fn lines_content(kept: Option<Vec<String>>) -> Option<Seq<Seq<char>>> {
    match kept {
        Some(kept) => Some(text::contents(kept@)),
        None => None,
    }
}

proof fn lemma_saved_part(file: Seq<HistoryLine>, n: nat)
    requires
        n <= file.len(),
        forall|i: int| n <= i < file.len() ==> !holds_saved(#[trigger] file[i]),
        n > 0 ==> holds_saved(file[n - 1]),
    ensures
        saved_part(file) == file.take(n as int),
    decreases file.len(),
{
    if n == file.len() {
        assert(file.take(n as int) =~= file);
    } else {
        assert(!holds_saved(file.last()));
        let front = file.drop_last();
        assert forall|i: int| n <= i < front.len() implies !holds_saved(#[trigger] front[i]) by {
            assert(!holds_saved(file[i]));
        }
        lemma_saved_part(front, n);
        assert(front.take(n as int) =~= file.take(n as int));
    }
}

/// What is left once unsaved entries are dropped, given the number of lines up to the last save.
pub proof fn lemma_saved_lines(file: Seq<HistoryLine>, n: nat)
    requires
        n <= file.len(),
        n > 0 ==> (history::entry_in(file[n - 1]) matches Some(e) && e.saved()),
        forall|i: int|
            n <= i < file.len() ==> (history::entry_in(#[trigger] file[i]) matches Some(e)
                ==> !e.saved()),
    ensures
        unsaved_dropped(file) == if n == 0 {
            None
        } else {
            Some(texts(nonblank(file.take(n as int))))
        },
{
    assert forall|i: int| n <= i < file.len() implies !holds_saved(#[trigger] file[i]) by {
        assert(history::entry_in(file[i]) matches Some(e) ==> !e.saved());
    }
    lemma_saved_part(file, n);
}

fn is_saved_line(line: &HistoryLine) -> (b: bool)
    ensures
        b == holds_saved(*line),
{
    match &line.entry {
        Some(e) => !lines::blank(line.text.as_str()) && e.saved(),
        None => false,
    }
}

/// The lines that are left of a history file once the entries after the last save are dropped; none
/// where there was no save, and the file stays as it is.
pub fn without_unsaved(file: &Vec<HistoryLine>) -> (kept: Option<Vec<String>>)
    ensures
        lines_content(kept) == unsaved_dropped(file@),
{
    let mut n: usize = file.len();
    while n > 0 && !is_saved_line(&file[n - 1])
        invariant
            n <= file.len(),
            forall|i: int| n <= i < file.len() ==> !holds_saved(#[trigger] file@[i]),
        decreases n,
    {
        n -= 1;
    }
    proof {
        lemma_saved_part(file@, n as nat);
    }
    if n == 0 {
        return None;
    }
    let ghost part = file@.take(n as int);
    let mut kept: Vec<String> = Vec::new();
    let mut i: usize = 0;
    assert(part.take(0) =~= Seq::empty());
    assert(text::contents(kept@) =~= texts(nonblank(part.take(0)))) by {
        reveal(Seq::filter);
    }
    while i < n
        invariant
            i <= n <= file.len(),
            part == file@.take(n as int),
            text::contents(kept@) == texts(nonblank(part.take(i as int))),
        decreases n - i,
    {
        let ghost so_far = text::contents(kept@);
        assert(part.take(i + 1).drop_last() =~= part.take(i as int));
        assert(part.take(i + 1).last() == file@[i as int]);
        proof {
            lemma_nonblank_step(part.take(i + 1));
        }
        if !lines::blank(file[i].text.as_str()) {
            kept.push(file[i].text.clone());
            assert(text::contents(kept@) =~= so_far.push(file@[i as int].text@));
        }
        i += 1;
    }
    assert(part.take(n as int) =~= part);
    Some(kept)
}

proof fn lemma_nonblank_step(file: Seq<HistoryLine>)
    requires
        file.len() > 0,
    ensures
        lines::is_blank(file.last().text@) ==> nonblank(file) == nonblank(file.drop_last()),
        !lines::is_blank(file.last().text@) ==> nonblank(file) == nonblank(file.drop_last()).push(
            file.last(),
        ) && texts(nonblank(file)) == texts(nonblank(file.drop_last())).push(file.last().text@),
{
    reveal(Seq::filter);
    if !lines::is_blank(file.last().text@) {
        assert(texts(nonblank(file)) =~= texts(nonblank(file.drop_last())).push(
            file.last().text@,
        ));
    }
}

proof fn lemma_nonblank_keeps_entries(file: Seq<HistoryLine>)
    ensures
        history::entries_in(nonblank(file)) == history::entries_in(file),
    decreases file.len(),
{
    if file.len() == 0 {
        reveal(Seq::filter);
        assert(nonblank(file) =~= file);
    } else {
        lemma_nonblank_keeps_entries(file.drop_last());
        lemma_nonblank_step(file);
        let front = nonblank(file.drop_last());
        assert(front.push(file.last()).drop_last() =~= front);
    }
}

/// Where every line that is not blank holds an entry, there are as many entries as such lines.
pub proof fn lemma_nonblank_counts(file: Seq<HistoryLine>)
    requires
        forall|i: int|
            0 <= i < file.len() ==> (history::entry_in(#[trigger] file[i]) is Some
                || lines::is_blank(file[i].text@)),
    ensures
        history::entries_in(nonblank(file)).len() == nonblank(file).len(),
    decreases file.len(),
{
    if file.len() == 0 {
        reveal(Seq::filter);
        assert(nonblank(file) =~= file);
    } else {
        let front = file.drop_last();
        assert forall|i: int| 0 <= i < front.len() implies (history::entry_in(
            #[trigger] front[i],
        ) is Some || lines::is_blank(front[i].text@)) by {
            assert(front[i] == file[i]);
        }
        lemma_nonblank_counts(front);
        lemma_nonblank_step(file);
        let kept = nonblank(front);
        assert(kept.push(file.last()).drop_last() =~= kept);
        assert(file.last() == file[file.len() - 1]);
    }
}

proof fn lemma_saved_part_ends_saved(file: Seq<HistoryLine>)
    ensures
        saved_part(file).len() > 0 ==> holds_saved(saved_part(file).last()),
    decreases file.len(),
{
    if file.len() > 0 && !holds_saved(file.last()) {
        lemma_saved_part_ends_saved(file.drop_last());
    }
}

/// Once the entries after the last save are dropped, the history ends with that save, and nothing
/// is unsaved.
pub proof fn law_nothing_stays_unsaved(file: Seq<HistoryLine>, comparable: bool)
    requires
        unsaved_dropped(file) is Some,
    ensures
        unsaved_dropped(file) == Some(texts(nonblank(saved_part(file)))),
        history::entries_in(nonblank(saved_part(file))).len() > 0,
        history::entries_in(nonblank(saved_part(file))).last().saved(),
        history_diff::unsaved(history::entries_in(nonblank(saved_part(file))), comparable) is None,
{
    let part = saved_part(file);
    lemma_saved_part_ends_saved(file);
    lemma_nonblank_keeps_entries(part);
}

/// The lines with an entry that is not older than `cutoff`.
pub open spec fn recent_lines(file: Seq<HistoryLine>, cutoff: u64) -> Seq<HistoryLine>
    decreases file.len(),
{
    if file.len() == 0 {
        Seq::empty()
    } else {
        let front = recent_lines(file.drop_last(), cutoff);
        match history::entry_in(file.last()) {
            Some(e) => if e.time() >= cutoff {
                front.push(file.last())
            } else {
                front
            },
            None => front,
        }
    }
}

/// The last line with a snapshot that is older than `cutoff`, if there is one.
pub open spec fn base_lines(file: Seq<HistoryLine>, cutoff: u64) -> Seq<HistoryLine>
    decreases file.len(),
{
    if file.len() == 0 {
        Seq::empty()
    } else {
        match history::entry_in(file.last()) {
            Some(e) => if e.time() < cutoff && e is Snapshot {
                seq![file.last()]
            } else {
                base_lines(file.drop_last(), cutoff)
            },
            None => base_lines(file.drop_last(), cutoff),
        }
    }
}

/// The lines that are kept when old entries are dropped: the recent ones, and before them the last
/// of the old snapshots, from which the recent deltas start.
pub open spec fn kept_lines(file: Seq<HistoryLine>, cutoff: u64) -> Seq<HistoryLine> {
    base_lines(file, cutoff) + recent_lines(file, cutoff)
}

/// What is to be done with a history file.
#[derive(Debug)]
pub enum Cleanup {
    /// Nothing.
    Leave,
    /// The file goes, and its place in the index with it.
    Remove,
    /// The file is to hold these lines.
    Rewrite(Vec<String>),
}

/// The cleanup leaves the file as it is if no line would go, removes it if no line would stay, and
/// else writes the lines that stay.
pub open spec fn cleans(c: Cleanup, file: Seq<HistoryLine>, cutoff: u64) -> bool {
    let kept = texts(kept_lines(file, cutoff));
    if kept.len() >= file.len() {
        c is Leave
    } else if kept.len() == 0 {
        c is Remove
    } else {
        c matches Cleanup::Rewrite(lines) && text::contents(lines@) == kept
    }
}

/// What is to be done with a history file from which entries older than `cutoff` are dropped.
pub fn cleanup_file(file: &Vec<HistoryLine>, cutoff: u64) -> (c: Cleanup)
    ensures
        cleans(c, file@, cutoff),
{
    let mut base: Option<usize> = None;
    let mut recent: Vec<usize> = Vec::new();
    let mut i: usize = 0;
    assert(file@.take(0) =~= Seq::empty());
    while i < file.len()
        invariant
            i <= file.len(),
            match base {
                Some(k) => k < i && base_lines(file@.take(i as int), cutoff) == seq![file@[k as int]],
                None => base_lines(file@.take(i as int), cutoff) == Seq::<HistoryLine>::empty(),
            },
            forall|j: int| 0 <= j < recent.len() ==> (#[trigger] recent@[j]) < i,
            recent.len() <= i,
            recent_lines(file@.take(i as int), cutoff) == recent@.map_values(
                |p: usize| file@[p as int],
            ),
        decreases file.len() - i,
    {
        let ghost so_far = recent@;
        assert(file@.take(i + 1).drop_last() =~= file@.take(i as int));
        assert(file@.take(i + 1).last() == file@[i as int]);
        if !lines::blank(file[i].text.as_str()) {
            if let Some(e) = &file[i].entry {
                if e.time() >= cutoff {
                    recent.push(i);
                    assert(recent@.map_values(|p: usize| file@[p as int]) =~= so_far.map_values(
                        |p: usize| file@[p as int],
                    ).push(file@[i as int]));
                } else if e.is_snapshot() {
                    base = Some(i);
                }
            }
        }
        i += 1;
    }
    assert(file@.take(i as int) =~= file@);
    let mut kept: Vec<String> = Vec::new();
    if let Some(k) = base {
        kept.push(file[k].text.clone());
    }
    let ghost first = text::contents(kept@);
    assert(first =~= texts(base_lines(file@, cutoff)));
    let mut j: usize = 0;
    while j < recent.len()
        invariant
            j <= recent.len(),
            forall|q: int| 0 <= q < recent.len() ==> (#[trigger] recent@[q]) < file.len(),
            first == texts(base_lines(file@, cutoff)),
            recent_lines(file@, cutoff) == recent@.map_values(|p: usize| file@[p as int]),
            text::contents(kept@) == first + texts(recent_lines(file@, cutoff)).take(j as int),
        decreases recent.len() - j,
    {
        let ghost so_far = text::contents(kept@);
        let p = recent[j];
        assert(recent_lines(file@, cutoff)[j as int] == file@[p as int]);
        kept.push(file[p].text.clone());
        j += 1;
        assert(text::contents(kept@) =~= so_far.push(file@[p as int].text@));
        assert(text::contents(kept@) =~= first + texts(recent_lines(file@, cutoff)).take(j as int));
    }
    assert(text::contents(kept@) =~= texts(kept_lines(file@, cutoff)));
    assert(kept@.len() == text::contents(kept@).len());
    if kept.len() >= file.len() {
        Cleanup::Leave
    } else if kept.len() == 0 {
        Cleanup::Remove
    } else {
        Cleanup::Rewrite(kept)
    }
}

/// The entries that are not older than `cutoff`.
pub open spec fn recent_entries(entries: Seq<EntryView>, cutoff: u64) -> Seq<EntryView>
    decreases entries.len(),
{
    if entries.len() == 0 {
        Seq::empty()
    } else {
        let front = recent_entries(entries.drop_last(), cutoff);
        if entries.last().time() >= cutoff {
            front.push(entries.last())
        } else {
            front
        }
    }
}

/// The last snapshot that is older than `cutoff`, if there is one.
pub open spec fn base_entries(entries: Seq<EntryView>, cutoff: u64) -> Seq<EntryView>
    decreases entries.len(),
{
    if entries.len() == 0 {
        Seq::empty()
    } else if entries.last().time() < cutoff && entries.last() is Snapshot {
        seq![entries.last()]
    } else {
        base_entries(entries.drop_last(), cutoff)
    }
}

/// The entries that are kept when old ones are dropped.
pub open spec fn kept_entries(entries: Seq<EntryView>, cutoff: u64) -> Seq<EntryView> {
    base_entries(entries, cutoff) + recent_entries(entries, cutoff)
}

proof fn lemma_entries_append(a: Seq<HistoryLine>, b: Seq<HistoryLine>)
    ensures
        history::entries_in(a + b) == history::entries_in(a) + history::entries_in(b),
    decreases b.len(),
{
    if b.len() == 0 {
        assert(a + b =~= a);
    } else {
        lemma_entries_append(a, b.drop_last());
        assert((a + b).drop_last() =~= a + b.drop_last());
        assert(history::entries_in(a + b) =~= history::entries_in(a) + history::entries_in(b));
    }
}

proof fn lemma_kept_parts(file: Seq<HistoryLine>, cutoff: u64)
    ensures
        history::entries_in(recent_lines(file, cutoff)) == recent_entries(
            history::entries_in(file),
            cutoff,
        ),
        recent_entries(history::entries_in(file), cutoff).len() == recent_lines(file, cutoff).len(),
        history::entries_in(base_lines(file, cutoff)) == base_entries(
            history::entries_in(file),
            cutoff,
        ),
        base_entries(history::entries_in(file), cutoff).len() == base_lines(file, cutoff).len(),
    decreases file.len(),
{
    if file.len() > 0 {
        lemma_kept_parts(file.drop_last(), cutoff);
        let front = recent_lines(file.drop_last(), cutoff);
        let before = history::entries_in(file.drop_last());
        assert(front.push(file.last()).drop_last() =~= front);
        match history::entry_in(file.last()) {
            Some(e) => {
                assert(before.push(e).drop_last() =~= before);
                let one = seq![file.last()];
                assert(one.drop_last() =~= Seq::empty());
                assert(history::entries_in(one) =~= seq![e]) by {
                    reveal_with_fuel(history::entries_in, 2);
                }
            },
            None => {},
        }
    }
}

/// When old entries are dropped from a file, the file holds the last old snapshot and the recent
/// entries, one to each line.
pub proof fn law_cleanup_keeps_base_and_recent(file: Seq<HistoryLine>, cutoff: u64)
    ensures
        history::entries_in(kept_lines(file, cutoff)) == kept_entries(
            history::entries_in(file),
            cutoff,
        ),
        history::entries_in(kept_lines(file, cutoff)).len() == kept_lines(file, cutoff).len(),
{
    lemma_kept_parts(file, cutoff);
    lemma_entries_append(base_lines(file, cutoff), recent_lines(file, cutoff));
}

/// No more entries are kept than there were.
pub proof fn lemma_kept_bound(entries: Seq<EntryView>, cutoff: u64)
    ensures
        kept_entries(entries, cutoff).len() <= entries.len(),
    decreases entries.len(),
{
    if entries.len() > 0 {
        lemma_kept_bound(entries.drop_last(), cutoff);
    }
}

proof fn lemma_kept_append(a: Seq<HistoryLine>, b: Seq<HistoryLine>, cutoff: u64)
    ensures
        recent_lines(a + b, cutoff) == recent_lines(a, cutoff) + recent_lines(b, cutoff),
        base_lines(a + b, cutoff) == if base_lines(b, cutoff).len() > 0 {
            base_lines(b, cutoff)
        } else {
            base_lines(a, cutoff)
        },
    decreases b.len(),
{
    if b.len() == 0 {
        assert(a + b =~= a);
        assert(recent_lines(a, cutoff) + recent_lines(b, cutoff) =~= recent_lines(a, cutoff));
    } else {
        lemma_kept_append(a, b.drop_last(), cutoff);
        assert((a + b).drop_last() =~= a + b.drop_last());
        assert(recent_lines(a + b, cutoff) =~= recent_lines(a, cutoff) + recent_lines(b, cutoff));
    }
}

proof fn lemma_kept_again(file: Seq<HistoryLine>, cutoff: u64)
    ensures
        recent_lines(recent_lines(file, cutoff), cutoff) == recent_lines(file, cutoff),
        base_lines(recent_lines(file, cutoff), cutoff) == Seq::<HistoryLine>::empty(),
        recent_lines(base_lines(file, cutoff), cutoff) == Seq::<HistoryLine>::empty(),
        base_lines(base_lines(file, cutoff), cutoff) == base_lines(file, cutoff),
    decreases file.len(),
{
    if file.len() > 0 {
        lemma_kept_again(file.drop_last(), cutoff);
        let front = recent_lines(file.drop_last(), cutoff);
        assert(front.push(file.last()).drop_last() =~= front);
        let one = seq![file.last()];
        assert(one.drop_last() =~= Seq::empty());
        reveal_with_fuel(recent_lines, 2);
        reveal_with_fuel(base_lines, 2);
    }
}

/// To drop the same old entries a second time changes nothing.
pub proof fn law_cleanup_settles(file: Seq<HistoryLine>, cutoff: u64)
    ensures
        kept_lines(kept_lines(file, cutoff), cutoff) == kept_lines(file, cutoff),
{
    lemma_kept_again(file, cutoff);
    lemma_kept_append(base_lines(file, cutoff), recent_lines(file, cutoff), cutoff);
    assert(kept_lines(kept_lines(file, cutoff), cutoff) =~= kept_lines(file, cutoff));
}

proof fn lemma_base_is_latest(entries: Seq<EntryView>, cutoff: u64)
    requires
        forall|i: int| 0 <= i < entries.len() ==> (#[trigger] entries[i]).time() < cutoff,
        history::deltas_since_snapshot(entries) == 0,
    ensures
        history::latest(base_entries(entries, cutoff)) == history::latest(entries),
        recent_entries(entries, cutoff).len() == 0,
        forall|i: int|
            0 <= i < base_entries(entries, cutoff).len() ==> (#[trigger] base_entries(
                entries,
                cutoff,
            )[i]).time() < cutoff,
    decreases entries.len(),
{
    if entries.len() > 0 {
        let front = entries.drop_last();
        assert forall|i: int| 0 <= i < front.len() implies (#[trigger] front[i]).time() < cutoff by {
            assert(entries[i].time() < cutoff);
        }
        assert(entries.last().time() < cutoff);
        lemma_old_entries(front, cutoff);
        if entries.last() is Snapshot {
            let one = seq![entries.last()];
            assert(one.last() == entries.last());
        } else {
            assert(history::deltas_since_snapshot(front) == 0);
            lemma_base_is_latest(front, cutoff);
        }
    }
}

proof fn lemma_old_entries(entries: Seq<EntryView>, cutoff: u64)
    requires
        forall|i: int| 0 <= i < entries.len() ==> (#[trigger] entries[i]).time() < cutoff,
    ensures
        recent_entries(entries, cutoff).len() == 0,
    decreases entries.len(),
{
    if entries.len() > 0 {
        let front = entries.drop_last();
        assert forall|i: int| 0 <= i < front.len() implies (#[trigger] front[i]).time() < cutoff by {
            assert(entries[i].time() < cutoff);
        }
        assert(entries.last().time() < cutoff);
        lemma_old_entries(front, cutoff);
    }
}

proof fn lemma_recent_append(a: Seq<EntryView>, b: Seq<EntryView>, cutoff: u64)
    requires
        forall|i: int| 0 <= i < b.len() ==> (#[trigger] b[i]).time() >= cutoff,
    ensures
        recent_entries(a + b, cutoff) == recent_entries(a, cutoff) + b,
        base_entries(a + b, cutoff) == base_entries(a, cutoff),
    decreases b.len(),
{
    if b.len() == 0 {
        assert(a + b =~= a);
        assert(recent_entries(a, cutoff) + b =~= recent_entries(a, cutoff));
    } else {
        let front = b.drop_last();
        assert forall|i: int| 0 <= i < front.len() implies (#[trigger] front[i]).time() >= cutoff by {
            assert(b[i].time() >= cutoff);
        }
        assert(b.last().time() >= cutoff);
        lemma_recent_append(a, front, cutoff);
        assert((a + b).drop_last() =~= a + front);
        assert((recent_entries(a, cutoff) + front).push(b.last()) =~= recent_entries(a, cutoff) + b);
    }
}

proof fn lemma_latest_depends_on_latest(a: Seq<EntryView>, b: Seq<EntryView>, c: Seq<EntryView>)
    requires
        history::latest(a) == history::latest(b),
    ensures
        history::latest(a + c) == history::latest(b + c),
    decreases c.len(),
{
    if c.len() == 0 {
        assert(a + c =~= a);
        assert(b + c =~= b);
    } else {
        lemma_latest_depends_on_latest(a, b, c.drop_last());
        assert((a + c).drop_last() =~= a + c.drop_last());
        assert((b + c).drop_last() =~= b + c.drop_last());
    }
}

proof fn lemma_up_to_append(a: Seq<EntryView>, b: Seq<EntryView>, target: u64)
    requires
        forall|i: int| 0 <= i < a.len() ==> (#[trigger] a[i]).time() <= target,
    ensures
        history::up_to(a + b, target) == a + history::up_to(b, target),
    decreases a.len(),
{
    if a.len() == 0 {
        assert(a + b =~= b);
        assert(a + history::up_to(b, target) =~= history::up_to(b, target));
    } else {
        assert(a[0].time() <= target);
        assert forall|i: int| 0 <= i < a.skip(1).len() implies (#[trigger] a.skip(1)[i]).time()
            <= target by {
            assert(a[i + 1].time() <= target);
        }
        lemma_up_to_append(a.skip(1), b, target);
        assert((a + b).skip(1) =~= a.skip(1) + b);
        assert((a + b)[0] == a[0]);
        assert(seq![a[0]] + (a.skip(1) + history::up_to(b, target)) =~= a + history::up_to(
            b,
            target,
        ));
    }
}

/// Where the first `n` entries are old and the others are not, and no delta was applied between the
/// last of the old snapshots and the first recent entry, the version at every recent time stays
/// the same when old entries are dropped.
pub proof fn law_cleanup_keeps_recent_versions(
    entries: Seq<EntryView>,
    n: nat,
    cutoff: u64,
    target: u64,
)
    requires
        n <= entries.len(),
        forall|i: int| 0 <= i < n ==> (#[trigger] entries[i]).time() < cutoff,
        forall|i: int| n <= i < entries.len() ==> (#[trigger] entries[i]).time() >= cutoff,
        history::deltas_since_snapshot(entries.take(n as int)) == 0,
        target >= cutoff,
    ensures
        history::latest(history::up_to(kept_entries(entries, cutoff), target)) == history::latest(
            history::up_to(entries, target),
        ),
        history::latest(kept_entries(entries, cutoff)) == history::latest(entries),
{
    let old_part = entries.take(n as int);
    let recent = entries.skip(n as int);
    assert(entries =~= old_part + recent);
    assert forall|i: int| 0 <= i < old_part.len() implies (#[trigger] old_part[i]).time() < cutoff by {
        assert(entries[i].time() < cutoff);
    }
    assert forall|i: int| 0 <= i < recent.len() implies (#[trigger] recent[i]).time() >= cutoff by {
        assert(entries[i + n].time() >= cutoff);
    }
    lemma_base_is_latest(old_part, cutoff);
    lemma_recent_append(old_part, recent, cutoff);
    let base = base_entries(old_part, cutoff);
    assert(kept_entries(entries, cutoff) =~= base + recent);
    lemma_up_to_append(base, recent, target);
    lemma_up_to_append(old_part, recent, target);
    lemma_latest_depends_on_latest(base, old_part, history::up_to(recent, target));
    lemma_latest_depends_on_latest(base, old_part, recent);
}

proof fn lemma_latest_from_snapshot(a: Seq<EntryView>, b: Seq<EntryView>, c: Seq<EntryView>, k: int)
    requires
        0 <= k < c.len(),
        c[k] is Snapshot,
    ensures
        history::latest(a + c) == history::latest(b + c),
    decreases c.len(),
{
    assert((a + c).drop_last() =~= a + c.drop_last());
    assert((b + c).drop_last() =~= b + c.drop_last());
    if k < c.len() - 1 {
        lemma_latest_from_snapshot(a, b, c.drop_last(), k);
    }
}

/// Where the first `n` entries are old and the others are not, and there is a snapshot among the
/// others, the latest version stays the same when old entries are dropped.
pub proof fn law_cleanup_keeps_the_latest_version(
    entries: Seq<EntryView>,
    n: nat,
    k: int,
    cutoff: u64,
)
    requires
        n <= k < entries.len(),
        forall|i: int| 0 <= i < n ==> (#[trigger] entries[i]).time() < cutoff,
        forall|i: int| n <= i < entries.len() ==> (#[trigger] entries[i]).time() >= cutoff,
        entries[k] is Snapshot,
    ensures
        history::latest(kept_entries(entries, cutoff)) == history::latest(entries),
{
    let old_part = entries.take(n as int);
    let recent = entries.skip(n as int);
    assert(entries =~= old_part + recent);
    assert forall|i: int| 0 <= i < old_part.len() implies (#[trigger] old_part[i]).time() < cutoff by {
        assert(entries[i].time() < cutoff);
    }
    assert forall|i: int| 0 <= i < recent.len() implies (#[trigger] recent[i]).time() >= cutoff by {
        assert(entries[i + n].time() >= cutoff);
    }
    lemma_old_entries(old_part, cutoff);
    lemma_recent_append(old_part, recent, cutoff);
    let base = base_entries(old_part, cutoff);
    assert(kept_entries(entries, cutoff) =~= base + recent);
    lemma_latest_from_snapshot(base, old_part, recent, k - n);
}

/// The time before which entries count as old.
pub open spec fn cutoff(now: u64) -> u64 {
    if now >= CLEANUP_MAX_AGE_SECS {
        (now - CLEANUP_MAX_AGE_SECS) as u64
    } else {
        0
    }
}

/// The time before which entries count as old.
pub fn cleanup_cutoff(now: u64) -> (time: u64)
    ensures
        time == cutoff(now),
{
    if now >= CLEANUP_MAX_AGE_SECS {
        now - CLEANUP_MAX_AGE_SECS
    } else {
        0
    }
}

/// What the index says of a history file.
#[derive(Debug)]
pub struct IndexEntry {
    pub file_path: String,
    pub entry_count: usize,
    pub last_timestamp: u64,
    pub has_unsaved: bool,
}

/// What the index says of a history file.
pub struct IndexView {
    pub file_path: Seq<char>,
    pub entry_count: nat,
    pub last_timestamp: u64,
    pub has_unsaved: bool,
}

impl View for IndexEntry {
    type V = IndexView;

    open spec fn view(&self) -> IndexView {
        IndexView {
            file_path: self.file_path@,
            entry_count: self.entry_count as nat,
            last_timestamp: self.last_timestamp,
            has_unsaved: self.has_unsaved,
        }
    }
}

impl Clone for IndexEntry {
    fn clone(&self) -> (r: Self)
        ensures
            r@ == self@,
    {
        IndexEntry {
            file_path: self.file_path.clone(),
            entry_count: self.entry_count,
            last_timestamp: self.last_timestamp,
            has_unsaved: self.has_unsaved,
        }
    }
}

/// The first path that some entries name, or else the empty one.
pub open spec fn first_path(entries: Seq<EntryView>) -> Seq<char>
    decreases entries.len(),
{
    if entries.len() == 0 {
        Seq::empty()
    } else {
        let found = first_path(entries.drop_last());
        if found.len() == 0 {
            entries.last().path()
        } else {
            found
        }
    }
}

/// The latest time of some entries, or else zero.
pub open spec fn latest_time(entries: Seq<EntryView>) -> u64
    decreases entries.len(),
{
    if entries.len() == 0 {
        0
    } else {
        let found = latest_time(entries.drop_last());
        if entries.last().time() > found {
            entries.last().time()
        } else {
            found
        }
    }
}

/// What the index is to say of a file with these entries: nothing, where there are none.
pub open spec fn summary(entries: Seq<EntryView>) -> Option<IndexView> {
    if entries.len() == 0 {
        None
    } else {
        Some(
            IndexView {
                file_path: first_path(entries),
                entry_count: entries.len(),
                last_timestamp: latest_time(entries),
                has_unsaved: !entries.last().saved(),
            },
        )
    }
}

/// The view of an index entry that may be absent.
pub open spec fn index_view(e: Option<IndexEntry>) -> Option<IndexView> {
    match e {
        Some(e) => Some(e@),
        None => None,
    }
}

/// What the index is to say of a file with these entries.
pub fn summary_of(entries: &Vec<HistoryEntry>) -> (s: Option<IndexEntry>)
    ensures
        index_view(s) == summary(history::views(entries@)),
{
    if entries.len() == 0 {
        return None;
    }
    let ghost v = history::views(entries@);
    let mut file_path: String = String::new();
    let mut last_timestamp: u64 = 0;
    let mut i: usize = 0;
    assert(v.take(0) =~= Seq::empty());
    assert(file_path@ =~= first_path(v.take(0)));
    while i < entries.len()
        invariant
            i <= entries.len(),
            v == history::views(entries@),
            file_path@ == first_path(v.take(i as int)),
            last_timestamp == latest_time(v.take(i as int)),
        decreases entries.len() - i,
    {
        assert(v[i as int] == entries@[i as int]@);
        assert(v.take(i + 1).drop_last() =~= v.take(i as int));
        assert(v.take(i + 1).last() == v[i as int]);
        if file_path.as_str().is_empty() {
            file_path = entries[i].path().clone();
        }
        if entries[i].time() > last_timestamp {
            last_timestamp = entries[i].time();
        }
        i += 1;
    }
    assert(v.take(i as int) =~= v);
    let last = entries.len() - 1;
    assert(v[last as int] == entries@[last as int]@);
    Some(
        IndexEntry {
            file_path,
            entry_count: entries.len(),
            last_timestamp,
            has_unsaved: !entries[last].saved(),
        },
    )
}

} // verus!
