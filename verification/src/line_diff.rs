//! Differences between two texts, line by line.
use vstd::prelude::*;

use crate::text;

verus! {

/// A line of a difference: `op` is "equal", "delete" or "insert".
#[derive(Debug)]
pub struct DiffLine {
    pub op: String,
    pub text: String,
}

impl View for DiffLine {
    type V = (Seq<char>, Seq<char>);

    open spec fn view(&self) -> (Seq<char>, Seq<char>) {
        (self.op@, self.text@)
    }
}

impl Clone for DiffLine {
    fn clone(&self) -> (r: Self)
        ensures
            r@ == self@,
    {
        DiffLine { op: self.op.clone(), text: self.text.clone() }
    }
}

/// The views of some lines of a difference.
pub open spec fn diff_views(lines: Seq<DiffLine>) -> Seq<(Seq<char>, Seq<char>)> {
    lines.map_values(|l: DiffLine| l@)
}

/// Copies the lines of a difference.
pub(crate) fn clone_diff(lines: &Vec<DiffLine>) -> (copy: Vec<DiffLine>)
    ensures
        diff_views(copy@) == diff_views(lines@),
{
    let mut copy: Vec<DiffLine> = Vec::new();
    let mut i: usize = 0;
    while i < lines.len()
        invariant
            i <= lines.len(),
            diff_views(copy@) == diff_views(lines@).take(i as int),
        decreases lines.len() - i,
    {
        let ghost so_far = diff_views(copy@);
        let line = lines[i].clone();
        copy.push(line);
        i += 1;
        assert(diff_views(copy@) =~= so_far.push(line@));
        assert(diff_views(copy@) =~= diff_views(lines@).take(i as int));
    }
    assert(diff_views(copy@) =~= diff_views(lines@));
    copy
}

/// The lines of a document: what stands between its line feeds.
pub open spec fn doc_lines(s: Seq<char>) -> Seq<Seq<char>> {
    text::split_on(s, '\n')
}

/// `c` is `a` with some lines left out.
pub open spec fn is_subsequence(c: Seq<Seq<char>>, a: Seq<Seq<char>>) -> bool
    decreases a.len(),
{
    ||| c.len() == 0
    ||| a.len() > 0 && c.last() == a.last() && is_subsequence(c.drop_last(), a.drop_last())
    ||| a.len() > 0 && is_subsequence(c, a.drop_last())
}

/// The length of a longest common subsequence.
pub open spec fn lcs_len(a: Seq<Seq<char>>, b: Seq<Seq<char>>) -> nat
    decreases a.len() + b.len(),
{
    if a.len() == 0 || b.len() == 0 {
        0
    } else if a.last() == b.last() {
        lcs_len(a.drop_last(), b.drop_last()) + 1
    } else {
        let shorter_a = lcs_len(a.drop_last(), b);
        let shorter_b = lcs_len(a, b.drop_last());
        if shorter_a >= shorter_b {
            shorter_a
        } else {
            shorter_b
        }
    }
}

/// A longest common subsequence: equal last lines belong to it, and else a line of `b` is left out,
/// unless leaving out one of `a` keeps more.
pub open spec fn lcs(a: Seq<Seq<char>>, b: Seq<Seq<char>>) -> Seq<Seq<char>>
    decreases a.len() + b.len(),
{
    if a.len() == 0 || b.len() == 0 {
        Seq::empty()
    } else if a.last() == b.last() {
        lcs(a.drop_last(), b.drop_last()).push(a.last())
    } else if lcs_len(a.drop_last(), b) > lcs_len(a, b.drop_last()) {
        lcs(a.drop_last(), b)
    } else {
        lcs(a, b.drop_last())
    }
}

/// What `lcs` gives has the length `lcs_len`, and is a subsequence of both texts.
pub proof fn law_lcs_is_common(a: Seq<Seq<char>>, b: Seq<Seq<char>>)
    ensures
        lcs(a, b).len() == lcs_len(a, b),
        is_subsequence(lcs(a, b), a),
        is_subsequence(lcs(a, b), b),
    decreases a.len() + b.len(),
{
    if a.len() == 0 || b.len() == 0 {
    } else if a.last() == b.last() {
        law_lcs_is_common(a.drop_last(), b.drop_last());
        assert(lcs(a, b).drop_last() =~= lcs(a.drop_last(), b.drop_last()));
    } else if lcs_len(a.drop_last(), b) > lcs_len(a, b.drop_last()) {
        law_lcs_is_common(a.drop_last(), b);
    } else {
        law_lcs_is_common(a, b.drop_last());
    }
}

/// No common subsequence is longer than the one that `lcs` gives.
pub proof fn law_lcs_is_longest(a: Seq<Seq<char>>, b: Seq<Seq<char>>, c: Seq<Seq<char>>)
    requires
        is_subsequence(c, a),
        is_subsequence(c, b),
    ensures
        c.len() <= lcs(a, b).len(),
    decreases a.len() + b.len(),
{
    law_lcs_is_common(a, b);
    if c.len() > 0 {
        let ends_a = c.last() == a.last() && is_subsequence(c.drop_last(), a.drop_last());
        let ends_b = c.last() == b.last() && is_subsequence(c.drop_last(), b.drop_last());
        if a.last() == b.last() {
            law_lcs_is_common(a.drop_last(), b.drop_last());
            lemma_shorter(c, a);
            lemma_shorter(c, b);
            law_lcs_is_longest(a.drop_last(), b.drop_last(), c.drop_last());
        } else if !ends_a {
            law_lcs_is_common(a.drop_last(), b);
            law_lcs_is_longest(a.drop_last(), b, c);
        } else {
            law_lcs_is_common(a, b.drop_last());
            law_lcs_is_longest(a, b.drop_last(), c);
        }
    }
}

proof fn lemma_shorter(c: Seq<Seq<char>>, a: Seq<Seq<char>>)
    requires
        is_subsequence(c, a),
        c.len() > 0,
    ensures
        is_subsequence(c.drop_last(), a.drop_last()),
    decreases a.len(),
{
    if c.last() == a.last() && is_subsequence(c.drop_last(), a.drop_last()) {
    } else {
        reveal_with_fuel(is_subsequence, 2);
        lemma_shorter(c, a.drop_last());
        lemma_longer(c.drop_last(), a.drop_last());
    }
}

proof fn lemma_longer(c: Seq<Seq<char>>, a: Seq<Seq<char>>)
    requires
        is_subsequence(c, a.drop_last()),
        a.len() > 0 || c.len() == 0,
    ensures
        is_subsequence(c, a),
{
}

proof fn lemma_lcs_len_bound(a: Seq<Seq<char>>, b: Seq<Seq<char>>)
    ensures
        lcs_len(a, b) <= a.len(),
    decreases a.len() + b.len(),
{
    if a.len() == 0 || b.len() == 0 {
    } else if a.last() == b.last() {
        lemma_lcs_len_bound(a.drop_last(), b.drop_last());
    } else {
        lemma_lcs_len_bound(a.drop_last(), b);
        lemma_lcs_len_bound(a, b.drop_last());
    }
}

/// The table of the lengths of longest common subsequences of prefixes.
spec fn is_row(row: Seq<usize>, a: Seq<Seq<char>>, b: Seq<Seq<char>>, filled: int) -> bool {
    row.len() == filled && forall|j: int| 0 <= j < filled ==> #[trigger] row[j] == lcs_len(a, b.take(j))
}

fn first_row(b: &Vec<String>) -> (row: Vec<usize>)
    ensures
        is_row(row@, Seq::empty(), text::contents(b@), b.len() + 1),
{
    let mut row: Vec<usize> = Vec::new();
    row.push(0);
    let mut j: usize = 0;
    while j < b.len()
        invariant
            j <= b.len(),
            is_row(row@, Seq::empty(), text::contents(b@), j + 1),
        decreases b.len() - j,
    {
        row.push(0);
        j += 1;
    }
    row
}

fn next_row(above: &Vec<usize>, a: &Vec<String>, i: usize, b: &Vec<String>) -> (row: Vec<usize>)
    requires
        i < a.len(),
        is_row(above@, text::contents(a@).take(i as int), text::contents(b@), b.len() + 1),
    ensures
        is_row(row@, text::contents(a@).take(i + 1), text::contents(b@), b.len() + 1),
{
    let ghost av = text::contents(a@);
    let ghost bv = text::contents(b@);
    let mut row: Vec<usize> = Vec::new();
    row.push(0);
    assert(av.take(i + 1).drop_last() =~= av.take(i as int));
    assert(av.take(i + 1).last() == a@[i as int]@);
    let mut j: usize = 0;
    while j < b.len()
        invariant
            i < a.len(),
            j <= b.len(),
            av == text::contents(a@),
            bv == text::contents(b@),
            av.take(i + 1).drop_last() == av.take(i as int),
            av.take(i + 1).last() == a@[i as int]@,
            is_row(above@, av.take(i as int), bv, b.len() + 1),
            is_row(row@, av.take(i + 1), bv, j + 1),
        decreases b.len() - j,
    {
        assert(bv.take(j + 1).drop_last() =~= bv.take(j as int));
        assert(bv.take(j + 1).last() == b@[j as int]@);
        let above_left = above[j];
        let above_here = above[j + 1];
        let left = row[j];
        let here: usize = if a[i] == b[j] {
            proof {
                lemma_lcs_len_bound(av.take(i as int), bv.take(j as int));
            }
            above_left + 1
        } else if above_here >= left {
            above_here
        } else {
            left
        };
        assert(here == lcs_len(av.take(i + 1), bv.take(j + 1)));
        row.push(here);
        j += 1;
    }
    row
}

/// A longest common subsequence of two lists of lines.
pub fn line_lcs(a: &Vec<String>, b: &Vec<String>) -> (common: Vec<String>)
    ensures
        text::contents(common@) == lcs(text::contents(a@), text::contents(b@)),
{
    let ghost av = text::contents(a@);
    let ghost bv = text::contents(b@);
    let mut table: Vec<Vec<usize>> = Vec::new();
    table.push(first_row(b));
    assert(av.take(0) =~= Seq::<Seq<char>>::empty());
    let mut i: usize = 0;
    while i < a.len()
        invariant
            i <= a.len(),
            av == text::contents(a@),
            bv == text::contents(b@),
            table@.len() == i + 1,
            forall|k: int|
                0 <= k <= i ==> is_row(#[trigger] table@[k]@, av.take(k), bv, b.len() + 1),
        decreases a.len() - i,
    {
        let row = next_row(&table[i], a, i, b);
        table.push(row);
        i += 1;
    }
    let mut reversed: Vec<String> = Vec::new();
    let mut j: usize = b.len();
    assert(av.take(a@.len() as int) =~= av);
    assert(bv.take(b@.len() as int) =~= bv);
    assert(lcs(av, bv) =~= lcs(av, bv) + text::contents(reversed@).reverse());
    while i > 0 && j > 0
        invariant
            i <= a.len(),
            j <= b.len(),
            av == text::contents(a@),
            bv == text::contents(b@),
            table@.len() == a.len() + 1,
            forall|k: int|
                0 <= k <= a.len() ==> is_row(#[trigger] table@[k]@, av.take(k), bv, b.len() + 1),
            lcs(av, bv) == lcs(av.take(i as int), bv.take(j as int)) + text::contents(
                reversed@,
            ).reverse(),
        decreases i + j,
    {
        let ghost at = av.take(i as int);
        let ghost bt = bv.take(j as int);
        assert(at.drop_last() =~= av.take(i - 1));
        assert(bt.drop_last() =~= bv.take(j - 1));
        assert(at.last() == a@[i - 1]@);
        assert(bt.last() == b@[j - 1]@);
        assert(is_row(table@[i - 1]@, av.take(i - 1), bv, b.len() + 1));
        assert(is_row(table@[i as int]@, av.take(i as int), bv, b.len() + 1));
        if a[i - 1] == b[j - 1] {
            let ghost tail = text::contents(reversed@);
            reversed.push(a[i - 1].clone());
            assert(text::contents(reversed@) =~= tail.push(at.last()));
            assert(text::contents(reversed@).reverse() =~= seq![at.last()] + tail.reverse());
            assert(lcs(av, bv) =~= lcs(at.drop_last(), bt.drop_last()) + text::contents(
                reversed@,
            ).reverse());
            i -= 1;
            j -= 1;
        } else if table[i - 1][j] > table[i][j - 1] {
            i -= 1;
        } else {
            j -= 1;
        }
    }
    assert(lcs(av, bv) =~= text::contents(reversed@).reverse());
    let mut common: Vec<String> = Vec::new();
    let mut k: usize = reversed.len();
    while k > 0
        invariant
            k <= reversed.len(),
            text::contents(common@) == text::contents(reversed@).reverse().take(reversed.len() - k),
        decreases k,
    {
        k -= 1;
        let ghost before = text::contents(common@);
        common.push(reversed[k].clone());
        assert(text::contents(common@) =~= before.push(reversed@[k as int]@));
        assert(text::contents(reversed@).reverse()[reversed.len() - 1 - k] == reversed@[k as int]@);
        assert(text::contents(common@) =~= text::contents(reversed@).reverse().take(
            reversed.len() - k,
        ));
    }
    assert(text::contents(common@) =~= text::contents(reversed@).reverse());
    common
}

/// The lines of a difference, all with the same `op`.
pub open spec fn marked(op: Seq<char>, lines: Seq<Seq<char>>) -> Seq<(Seq<char>, Seq<char>)> {
    lines.map_values(|line: Seq<char>| (op, line))
}

/// The difference from `a` to `b` that keeps the common lines `c`: before each of them stand the
/// lines of `a` that are deleted and then those of `b` that are inserted.
pub open spec fn diff_keeping(
    a: Seq<Seq<char>>,
    b: Seq<Seq<char>>,
    c: Seq<Seq<char>>,
) -> Seq<(Seq<char>, Seq<char>)>
    decreases a.len() + b.len(),
{
    if a.len() > 0 && (c.len() == 0 || a[0] != c[0]) {
        seq![("delete"@, a[0])] + diff_keeping(a.skip(1), b, c)
    } else if b.len() > 0 && (c.len() == 0 || b[0] != c[0]) {
        seq![("insert"@, b[0])] + diff_keeping(a, b.skip(1), c)
    } else if a.len() > 0 && b.len() > 0 {
        seq![("equal"@, a[0])] + diff_keeping(a.skip(1), b.skip(1), c.skip(1))
    } else {
        Seq::empty()
    }
}

/// The difference between the lines of two documents.
pub open spec fn line_diff(old: Seq<char>, new: Seq<char>) -> Seq<(Seq<char>, Seq<char>)> {
    diff_keeping(doc_lines(old), doc_lines(new), lcs(doc_lines(old), doc_lines(new)))
}

/// All lines of `old` deleted, and then all lines of `new` inserted.
pub open spec fn whole_diff(old: Seq<char>, new: Seq<char>) -> Seq<(Seq<char>, Seq<char>)> {
    marked("delete"@, doc_lines(old)) + marked("insert"@, doc_lines(new))
}

fn diff_line(op: &str, line: &String) -> (l: DiffLine)
    ensures
        l@ == (op@, line@),
{
    DiffLine { op: op.to_owned(), text: line.clone() }
}

/// The difference between the lines of two documents.
pub fn diff_of_lines(old: &str, new: &str) -> (diff: Vec<DiffLine>)
    ensures
        diff_views(diff@) == line_diff(old@, new@),
{
    let a = text::split_at_char(old, '\n');
    let b = text::split_at_char(new, '\n');
    let c = line_lcs(&a, &b);
    let ghost av = text::contents(a@);
    let ghost bv = text::contents(b@);
    let ghost cv = text::contents(c@);
    proof {
        law_lcs_is_common(av, bv);
    }
    let mut diff: Vec<DiffLine> = Vec::new();
    let mut si: usize = 0;
    let mut li: usize = 0;
    let mut ci: usize = 0;
    assert(av.skip(0) =~= av);
    assert(bv.skip(0) =~= bv);
    assert(cv.skip(0) =~= cv);
    assert(diff_views(diff@) + diff_keeping(av, bv, cv) =~= diff_keeping(av, bv, cv));
    while si < a.len() || li < b.len()
        invariant
            si <= a.len(),
            li <= b.len(),
            ci <= c.len(),
            av == text::contents(a@),
            bv == text::contents(b@),
            cv == text::contents(c@),
            is_subsequence(cv.skip(ci as int), av.skip(si as int)),
            is_subsequence(cv.skip(ci as int), bv.skip(li as int)),
            diff_views(diff@) + diff_keeping(
                av.skip(si as int),
                bv.skip(li as int),
                cv.skip(ci as int),
            ) == diff_keeping(av, bv, cv),
        decreases a.len() - si + b.len() - li,
    {
        let ghost at = av.skip(si as int);
        let ghost bt = bv.skip(li as int);
        let ghost ct = cv.skip(ci as int);
        let ghost before = diff_views(diff@);
        proof {
            if at.len() > 0 {
                assert(at[0] == a@[si as int]@);
                assert(at.skip(1) =~= av.skip(si + 1));
            }
            if bt.len() > 0 {
                assert(bt[0] == b@[li as int]@);
                assert(bt.skip(1) =~= bv.skip(li + 1));
            }
            if ct.len() > 0 {
                assert(ct[0] == c@[ci as int]@);
                assert(ct.skip(1) =~= cv.skip(ci + 1));
                lemma_front(ct, at);
                lemma_front(ct, bt);
            }
        }
        if si < a.len() && (ci >= c.len() || a[si] != c[ci]) {
            diff.push(diff_line("delete", &a[si]));
            si += 1;
            assert(diff_views(diff@) =~= before.push(("delete"@, at[0])));
        } else if li < b.len() && (ci >= c.len() || b[li] != c[ci]) {
            diff.push(diff_line("insert", &b[li]));
            li += 1;
            assert(diff_views(diff@) =~= before.push(("insert"@, bt[0])));
        } else {
            diff.push(diff_line("equal", &a[si]));
            si += 1;
            li += 1;
            ci += 1;
            assert(diff_views(diff@) =~= before.push(("equal"@, at[0])));
        }
        assert(diff_views(diff@) + diff_keeping(
            av.skip(si as int),
            bv.skip(li as int),
            cv.skip(ci as int),
        ) =~= before + diff_keeping(at, bt, ct));
    }
    assert(diff_views(diff@) =~= diff_keeping(av, bv, cv));
    diff
}

/// A common line is either the first line of a text or stands behind it.
proof fn lemma_front(c: Seq<Seq<char>>, a: Seq<Seq<char>>)
    requires
        is_subsequence(c, a),
        c.len() > 0,
    ensures
        a.len() > 0,
        a[0] == c[0] ==> is_subsequence(c.skip(1), a.skip(1)),
        a[0] != c[0] ==> is_subsequence(c, a.skip(1)),
    decreases a.len(),
{
    let ca = c.drop_last();
    let aa = a.drop_last();
    if c.last() == a.last() && is_subsequence(ca, aa) {
        if ca.len() > 0 {
            lemma_front(ca, aa);
            assert(a.skip(1).last() == a.last());
            assert(a.skip(1).drop_last() =~= aa.skip(1));
            assert(c.skip(1).last() == c.last());
            assert(c.skip(1).drop_last() =~= ca.skip(1));
        } else if a.len() == 1 {
            assert(c[0] == a[0]);
            assert(c.skip(1).len() == 0);
        } else if a[0] == c[0] {
            assert(c.skip(1).len() == 0);
        } else {
            assert(a.skip(1).last() == c.last());
            assert(is_subsequence(ca, a.skip(1).drop_last()));
        }
    } else {
        lemma_front(c, aa);
        assert(aa.len() > 0);
        assert(a.skip(1).drop_last() =~= aa.skip(1));
    }
}

/// The lines of a difference that do not carry `op`.
pub open spec fn lines_but(diff: Seq<(Seq<char>, Seq<char>)>, op: Seq<char>) -> Seq<Seq<char>>
    decreases diff.len(),
{
    if diff.len() == 0 {
        Seq::empty()
    } else if diff[0].0 == op {
        lines_but(diff.skip(1), op)
    } else {
        seq![diff[0].1] + lines_but(diff.skip(1), op)
    }
}

/// A line diff is faithful: without its insertions it is the old document, and without its
/// deletions the new one.
pub proof fn law_line_diff_is_faithful(old: Seq<char>, new: Seq<char>)
    ensures
        lines_but(line_diff(old, new), "insert"@) == doc_lines(old),
        lines_but(line_diff(old, new), "delete"@) == doc_lines(new),
{
    let a = doc_lines(old);
    let b = doc_lines(new);
    law_lcs_is_common(a, b);
    lemma_faithful(a, b, lcs(a, b));
}

proof fn lemma_ops_differ()
    ensures
        "insert"@ != "delete"@,
        "insert"@ != "equal"@,
        "delete"@ != "equal"@,
{
    reveal_strlit("insert");
    reveal_strlit("delete");
    reveal_strlit("equal");
    assert("insert"@[0] != "delete"@[0]);
    assert("insert"@[0] != "equal"@[0]);
    assert("delete"@[0] != "equal"@[0]);
}

proof fn lemma_faithful(a: Seq<Seq<char>>, b: Seq<Seq<char>>, c: Seq<Seq<char>>)
    requires
        is_subsequence(c, a),
        is_subsequence(c, b),
    ensures
        lines_but(diff_keeping(a, b, c), "insert"@) == a,
        lines_but(diff_keeping(a, b, c), "delete"@) == b,
    decreases a.len() + b.len(),
{
    lemma_ops_differ();
    if c.len() > 0 {
        lemma_front(c, a);
        lemma_front(c, b);
    }
    let d = diff_keeping(a, b, c);
    if a.len() > 0 && (c.len() == 0 || a[0] != c[0]) {
        lemma_faithful(a.skip(1), b, c);
        assert(d.skip(1) =~= diff_keeping(a.skip(1), b, c));
        assert(a =~= seq![a[0]] + a.skip(1));
    } else if b.len() > 0 && (c.len() == 0 || b[0] != c[0]) {
        lemma_faithful(a, b.skip(1), c);
        assert(d.skip(1) =~= diff_keeping(a, b.skip(1), c));
        assert(b =~= seq![b[0]] + b.skip(1));
    } else if a.len() > 0 && b.len() > 0 {
        lemma_faithful(a.skip(1), b.skip(1), c.skip(1));
        assert(d.skip(1) =~= diff_keeping(a.skip(1), b.skip(1), c.skip(1)));
        assert(a =~= seq![a[0]] + a.skip(1));
        assert(b =~= seq![b[0]] + b.skip(1));
    } else {
        assert(a =~= Seq::empty());
        assert(b =~= Seq::empty());
    }
}

/// The lines of a difference that carry `op`.
pub open spec fn lines_with(diff: Seq<(Seq<char>, Seq<char>)>, op: Seq<char>) -> Seq<Seq<char>>
    decreases diff.len(),
{
    if diff.len() == 0 {
        Seq::empty()
    } else if diff[0].0 == op {
        seq![diff[0].1] + lines_with(diff.skip(1), op)
    } else {
        lines_with(diff.skip(1), op)
    }
}

/// A line diff keeps as many lines as can be kept: those that it marks as equal are a longest
/// common subsequence of the two documents.
pub proof fn law_line_diff_keeps_the_most(old: Seq<char>, new: Seq<char>)
    ensures
        lines_with(line_diff(old, new), "equal"@) == lcs(doc_lines(old), doc_lines(new)),
        lines_with(line_diff(old, new), "equal"@).len() == lcs_len(doc_lines(old), doc_lines(new)),
{
    let a = doc_lines(old);
    let b = doc_lines(new);
    law_lcs_is_common(a, b);
    lemma_keeps(a, b, lcs(a, b));
}

proof fn lemma_keeps(a: Seq<Seq<char>>, b: Seq<Seq<char>>, c: Seq<Seq<char>>)
    requires
        is_subsequence(c, a),
        is_subsequence(c, b),
    ensures
        lines_with(diff_keeping(a, b, c), "equal"@) == c,
    decreases a.len() + b.len(),
{
    lemma_ops_differ();
    if c.len() > 0 {
        lemma_front(c, a);
        lemma_front(c, b);
    }
    let d = diff_keeping(a, b, c);
    if a.len() > 0 && (c.len() == 0 || a[0] != c[0]) {
        lemma_keeps(a.skip(1), b, c);
        assert(d.skip(1) =~= diff_keeping(a.skip(1), b, c));
    } else if b.len() > 0 && (c.len() == 0 || b[0] != c[0]) {
        lemma_keeps(a, b.skip(1), c);
        assert(d.skip(1) =~= diff_keeping(a, b.skip(1), c));
    } else if a.len() > 0 && b.len() > 0 {
        lemma_keeps(a.skip(1), b.skip(1), c.skip(1));
        assert(d.skip(1) =~= diff_keeping(a.skip(1), b.skip(1), c.skip(1)));
        assert(c =~= seq![c[0]] + c.skip(1));
    } else {
        assert(c =~= Seq::empty());
    }
}

fn push_marked(diff: &mut Vec<DiffLine>, op: &str, lines: &Vec<String>)
    ensures
        diff_views(final(diff)@) == diff_views(old(diff)@) + marked(op@, text::contents(lines@)),
{
    let ghost before = diff_views(diff@);
    let ghost added = marked(op@, text::contents(lines@));
    let mut i: usize = 0;
    while i < lines.len()
        invariant
            i <= lines.len(),
            added == marked(op@, text::contents(lines@)),
            diff_views(diff@) == before + added.take(i as int),
        decreases lines.len() - i,
    {
        let ghost so_far = diff_views(diff@);
        diff.push(diff_line(op, &lines[i]));
        assert(diff_views(diff@) =~= so_far.push((op@, lines@[i as int]@)));
        assert(added[i as int] == (op@, lines@[i as int]@));
        i += 1;
        assert(diff_views(diff@) =~= before + added.take(i as int));
    }
    assert(added.take(i as int) =~= added);
}

proof fn lemma_marked(op: Seq<char>, a: Seq<Seq<char>>, rest: Seq<(Seq<char>, Seq<char>)>, of: Seq<char>)
    ensures
        lines_but(marked(op, a) + rest, of) == if op == of {
            lines_but(rest, of)
        } else {
            a + lines_but(rest, of)
        },
        lines_with(marked(op, a) + rest, of) == if op == of {
            a + lines_with(rest, of)
        } else {
            lines_with(rest, of)
        },
    decreases a.len(),
{
    let all = marked(op, a) + rest;
    if a.len() == 0 {
        assert(all =~= rest);
        assert(a + lines_but(rest, of) =~= lines_but(rest, of));
        assert(a + lines_with(rest, of) =~= lines_with(rest, of));
    } else {
        lemma_marked(op, a.skip(1), rest, of);
        assert(all.skip(1) =~= marked(op, a.skip(1)) + rest);
        assert(all[0] == (op, a[0]));
        assert(a + lines_but(rest, of) =~= seq![a[0]] + (a.skip(1) + lines_but(rest, of)));
        assert(a + lines_with(rest, of) =~= seq![a[0]] + (a.skip(1) + lines_with(rest, of)));
    }
}

/// All lines of one document deleted and all of another inserted lead from the one to the other:
/// no line is kept.
pub proof fn law_whole_diff_is_faithful(old: Seq<char>, new: Seq<char>)
    ensures
        lines_but(whole_diff(old, new), "insert"@) == doc_lines(old),
        lines_but(whole_diff(old, new), "delete"@) == doc_lines(new),
        lines_with(whole_diff(old, new), "equal"@).len() == 0,
        forall|i: int|
            0 <= i < whole_diff(old, new).len() ==> (#[trigger] whole_diff(old, new)[i]).0 == (if i
                < doc_lines(old).len() {
                "delete"@
            } else {
                "insert"@
            }),
{
    lemma_ops_differ();
    let a = doc_lines(old);
    let b = doc_lines(new);
    let inserted = marked("insert"@, b);
    let nothing = Seq::<(Seq<char>, Seq<char>)>::empty();
    assert(inserted =~= inserted + nothing);
    lemma_marked("insert"@, b, nothing, "insert"@);
    lemma_marked("insert"@, b, nothing, "delete"@);
    lemma_marked("insert"@, b, nothing, "equal"@);
    lemma_marked("delete"@, a, inserted, "insert"@);
    lemma_marked("delete"@, a, inserted, "delete"@);
    lemma_marked("delete"@, a, inserted, "equal"@);
    assert(a + Seq::<Seq<char>>::empty() =~= a);
    assert(b + Seq::<Seq<char>>::empty() =~= b);
}

/// All lines of one document deleted and all of another inserted.
pub fn diff_of_all_lines(old: &str, new: &str) -> (diff: Vec<DiffLine>)
    ensures
        diff_views(diff@) == whole_diff(old@, new@),
{
    let a = text::split_at_char(old, '\n');
    let b = text::split_at_char(new, '\n');
    let mut diff: Vec<DiffLine> = Vec::new();
    push_marked(&mut diff, "delete", &a);
    push_marked(&mut diff, "insert", &b);
    assert(diff_views(diff@) =~= whole_diff(old@, new@));
    diff
}

/// The number of lines with which two documents begin alike.
pub open spec fn common_start(a: Seq<Seq<char>>, b: Seq<Seq<char>>) -> nat
    decreases a.len(),
{
    if a.len() == 0 || b.len() == 0 || a[0] != b[0] {
        0
    } else {
        common_start(a.skip(1), b.skip(1)) + 1
    }
}

/// The number of lines with which two documents end alike.
pub open spec fn common_end(a: Seq<Seq<char>>, b: Seq<Seq<char>>) -> nat
    decreases a.len(),
{
    if a.len() == 0 || b.len() == 0 || a.last() != b.last() {
        0
    } else {
        common_end(a.drop_last(), b.drop_last()) + 1
    }
}

proof fn lemma_common_start(a: Seq<Seq<char>>, b: Seq<Seq<char>>, n: nat)
    requires
        n <= a.len(),
        n <= b.len(),
        forall|i: int| 0 <= i < n ==> a[i] == b[i],
        n == a.len() || n == b.len() || a[n as int] != b[n as int],
    ensures
        common_start(a, b) == n,
    decreases n,
{
    if n > 0 {
        assert(a[0] == b[0]);
        assert forall|i: int| 0 <= i < n - 1 implies a.skip(1)[i] == b.skip(1)[i] by {
            assert(a[i + 1] == b[i + 1]);
        }
        lemma_common_start(a.skip(1), b.skip(1), (n - 1) as nat);
    }
}

proof fn lemma_common_end(a: Seq<Seq<char>>, b: Seq<Seq<char>>, n: nat)
    requires
        n <= a.len(),
        n <= b.len(),
        a.skip(a.len() - n) == b.skip(b.len() - n),
        n == a.len() || n == b.len() || a[a.len() - 1 - n] != b[b.len() - 1 - n],
    ensures
        common_end(a, b) == n,
    decreases n,
{
    if n > 0 {
        let aa = a.drop_last();
        let bb = b.drop_last();
        assert(a.skip(a.len() - n)[n - 1] == a.last());
        assert(b.skip(b.len() - n)[n - 1] == b.last());
        assert(aa.skip(aa.len() - (n - 1)) =~= a.skip(a.len() - n).drop_last());
        assert(bb.skip(bb.len() - (n - 1)) =~= b.skip(b.len() - n).drop_last());
        lemma_common_end(aa, bb, (n - 1) as nat);
    }
}

/// A number as far as its type goes.
pub open spec fn capped(n: int) -> int {
    if n <= usize::MAX {
        n
    } else {
        usize::MAX as int
    }
}

/// The lines of two documents between what they begin and end with alike.
pub open spec fn changed_lines(old: Seq<char>, new: Seq<char>) -> (
    Seq<Seq<char>>,
    Seq<Seq<char>>,
) {
    let a = doc_lines(old);
    let b = doc_lines(new);
    let start = common_start(a, b) as int;
    let end = common_end(a.skip(start), b.skip(start)) as int;
    (a.subrange(start, a.len() - end), b.subrange(start, b.len() - end))
}

/// A glance at a change: the first line that went, the first line that came, and how many lines
/// went or came.
pub open spec fn preview(old: Seq<char>, new: Seq<char>) -> (Seq<(Seq<char>, Seq<char>)>, int) {
    let (gone, come) = changed_lines(old, new);
    (
        marked("delete"@, gone.take(if gone.len() > 0 { 1 } else { 0 })) + marked(
            "insert"@,
            come.take(if come.len() > 0 { 1 } else { 0 }),
        ),
        capped((gone.len() + come.len()) as int),
    )
}

/// A glance at a change, in time proportional to the number of lines.
pub fn quick_diff_preview(before: &str, after: &str) -> (r: (Vec<DiffLine>, usize))
    ensures
        (diff_views(r.0@), r.1 as int) == preview(before@, after@),
{
    let a = text::split_at_char(before, '\n');
    let b = text::split_at_char(after, '\n');
    let ghost av = text::contents(a@);
    let ghost bv = text::contents(b@);
    let mut start: usize = 0;
    while start < a.len() && start < b.len() && a[start] == b[start]
        invariant
            start <= a.len(),
            start <= b.len(),
            av == text::contents(a@),
            bv == text::contents(b@),
            forall|i: int| 0 <= i < start ==> av[i] == bv[i],
        decreases a.len() - start,
    {
        assert(av[start as int] == a@[start as int]@);
        assert(bv[start as int] == b@[start as int]@);
        start += 1;
    }
    proof {
        if start < a.len() && start < b.len() {
            assert(av[start as int] == a@[start as int]@);
            assert(bv[start as int] == b@[start as int]@);
        }
        lemma_common_start(av, bv, start as nat);
    }
    let ghost at = av.skip(start as int);
    let ghost bt = bv.skip(start as int);
    let mut end: usize = 0;
    assert(at.skip(at.len() - end) =~= bt.skip(bt.len() - end));
    while end < a.len() - start && end < b.len() - start && a[a.len() - 1 - end] == b[b.len() - 1
        - end]
        invariant
            start <= a.len(),
            start <= b.len(),
            end <= a.len() - start,
            end <= b.len() - start,
            av == text::contents(a@),
            bv == text::contents(b@),
            at == av.skip(start as int),
            bt == bv.skip(start as int),
            at.skip(at.len() - end) == bt.skip(bt.len() - end),
        decreases a.len() - end,
    {
        assert(at[at.len() - 1 - end] == a@[a.len() - 1 - end]@);
        assert(bt[bt.len() - 1 - end] == b@[b.len() - 1 - end]@);
        assert(at.skip(at.len() - 1 - end) =~= seq![at[at.len() - 1 - end]] + at.skip(
            at.len() - end,
        ));
        assert(bt.skip(bt.len() - 1 - end) =~= seq![bt[bt.len() - 1 - end]] + bt.skip(
            bt.len() - end,
        ));
        end += 1;
    }
    proof {
        if end < a.len() - start && end < b.len() - start {
            assert(at[at.len() - 1 - end] == a@[a.len() - 1 - end]@);
            assert(bt[bt.len() - 1 - end] == b@[b.len() - 1 - end]@);
        }
        lemma_common_end(at, bt, end as nat);
    }
    let gone: usize = a.len() - start - end;
    let come: usize = b.len() - start - end;
    let total: usize = if gone <= usize::MAX - come {
        gone + come
    } else {
        usize::MAX
    };
    let ghost changed = changed_lines(before@, after@);
    assert(changed.0.len() == gone);
    assert(changed.1.len() == come);
    let mut lines: Vec<DiffLine> = Vec::new();
    if gone > 0 {
        lines.push(diff_line("delete", &a[start]));
        assert(changed.0[0] == a@[start as int]@);
    }
    if come > 0 {
        lines.push(diff_line("insert", &b[start]));
        assert(changed.1[0] == b@[start as int]@);
    }
    assert(diff_views(lines@) =~= preview(before@, after@).0);
    (lines, total)
}

/// A glance, where `start` lines stand alike at the beginning of two documents and `end` lines
/// behind them at their end, and no more: it shows the first line that went, if any went, and the
/// first that came, if any came, and counts them all.
pub proof fn law_preview_shows_the_first_changed_lines(
    old: Seq<char>,
    new: Seq<char>,
    start: int,
    end: int,
)
    requires
        ({
            let a = text::split_on(old, '\n');
            let b = text::split_on(new, '\n');
            &&& 0 <= start && 0 <= end
            &&& start + end <= a.len() && start + end <= b.len()
            &&& forall|i: int| 0 <= i < start ==> a[i] == b[i]
            &&& start == a.len() || start == b.len() || a[start] != b[start]
            &&& forall|i: int|
                0 <= i < end ==> #[trigger] a[a.len() - end + i] == b[b.len() - end + i]
            &&& start + end == a.len() || start + end == b.len() || a[a.len() - end - 1]
                != b[b.len() - end - 1]
        }),
    ensures
        ({
            let a = text::split_on(old, '\n');
            let b = text::split_on(new, '\n');
            let gone = a.len() - start - end;
            let come = b.len() - start - end;
            let (lines, total) = preview(old, new);
            &&& gone > 0 && come > 0 ==> lines == seq![
                ("delete"@, a[start]),
                ("insert"@, b[start]),
            ]
            &&& gone > 0 && come == 0 ==> lines == seq![("delete"@, a[start])]
            &&& gone == 0 && come > 0 ==> lines == seq![("insert"@, b[start])]
            &&& gone == 0 && come == 0 ==> lines.len() == 0
            &&& gone + come <= usize::MAX ==> total == gone + come
            &&& gone + come > usize::MAX ==> total == usize::MAX
        }),
{
    let a = doc_lines(old);
    let b = doc_lines(new);
    lemma_common_start(a, b, start as nat);
    let at = a.skip(start);
    let bt = b.skip(start);
    assert(at.skip(at.len() - end) =~= bt.skip(bt.len() - end)) by {
        assert forall|i: int| 0 <= i < end implies #[trigger] at.skip(at.len() - end)[i]
            == bt.skip(bt.len() - end)[i] by {
            assert(a[a.len() - end + i] == b[b.len() - end + i]);
        }
    }
    lemma_common_end(at, bt, end as nat);
    let (gone, come) = changed_lines(old, new);
    let (lines, total) = preview(old, new);
    if gone.len() > 0 {
        assert(gone[0] == a[start]);
        assert(marked("delete"@, gone.take(1)) =~= seq![("delete"@, a[start])]);
    }
    if come.len() > 0 {
        assert(come[0] == b[start]);
        assert(marked("insert"@, come.take(1)) =~= seq![("insert"@, b[start])]);
    }
    if gone.len() > 0 && come.len() > 0 {
        assert(lines =~= seq![("delete"@, a[start]), ("insert"@, b[start])]);
    } else if gone.len() > 0 {
        assert(lines =~= seq![("delete"@, a[start])]);
    } else if come.len() > 0 {
        assert(lines =~= seq![("insert"@, b[start])]);
    }
}

/// A line diff marks each line as equal, deleted or inserted, and between equal lines the deleted
/// ones come first.
pub proof fn law_deletions_come_before_insertions(old: Seq<char>, new: Seq<char>, i: int)
    requires
        0 <= i < line_diff(old, new).len(),
    ensures
        ({
            let d = line_diff(old, new);
            &&& d[i].0 == "equal"@ || d[i].0 == "delete"@ || d[i].0 == "insert"@
            &&& i > 0 && d[i - 1].0 == "insert"@ ==> d[i].0 != "delete"@
        }),
{
    let a = doc_lines(old);
    let b = doc_lines(new);
    law_lcs_is_common(a, b);
    lemma_ops_in_order(a, b, lcs(a, b), i);
}

proof fn lemma_ops_in_order(a: Seq<Seq<char>>, b: Seq<Seq<char>>, c: Seq<Seq<char>>, i: int)
    requires
        is_subsequence(c, a),
        is_subsequence(c, b),
        0 <= i < diff_keeping(a, b, c).len(),
    ensures
        ({
            let d = diff_keeping(a, b, c);
            &&& d[i].0 == "equal"@ || d[i].0 == "delete"@ || d[i].0 == "insert"@
            &&& i > 0 && d[i - 1].0 == "insert"@ ==> d[i].0 != "delete"@
        }),
    decreases a.len() + b.len(),
{
    lemma_ops_differ();
    if c.len() > 0 {
        lemma_front(c, a);
        lemma_front(c, b);
    }
    let d = diff_keeping(a, b, c);
    if a.len() > 0 && (c.len() == 0 || a[0] != c[0]) {
        assert(d.skip(1) =~= diff_keeping(a.skip(1), b, c));
        if i > 0 {
            lemma_ops_in_order(a.skip(1), b, c, i - 1);
            assert(d[i] == d.skip(1)[i - 1]);
            if i > 1 {
                assert(d[i - 1] == d.skip(1)[i - 2]);
            }
        }
    } else if b.len() > 0 && (c.len() == 0 || b[0] != c[0]) {
        let rest = diff_keeping(a, b.skip(1), c);
        assert(d.skip(1) =~= rest);
        if i > 0 {
            lemma_ops_in_order(a, b.skip(1), c, i - 1);
            assert(d[i] == d.skip(1)[i - 1]);
            if i > 1 {
                assert(d[i - 1] == d.skip(1)[i - 2]);
            } else if b.skip(1).len() > 0 && (c.len() == 0 || b.skip(1)[0] != c[0]) {
                assert(rest[0].0 == "insert"@);
            } else {
                assert(rest[0].0 == "equal"@);
            }
        }
    } else if a.len() > 0 && b.len() > 0 {
        assert(d.skip(1) =~= diff_keeping(a.skip(1), b.skip(1), c.skip(1)));
        if i > 0 {
            lemma_ops_in_order(a.skip(1), b.skip(1), c.skip(1), i - 1);
            assert(d[i] == d.skip(1)[i - 1]);
            if i > 1 {
                assert(d[i - 1] == d.skip(1)[i - 2]);
            }
        }
    }
}

/// The quick look sees no change exactly where the documents are equal, and it shows at most two
/// lines.
pub proof fn law_preview_sees_every_change(old: Seq<char>, new: Seq<char>)
    ensures
        preview(old, new).1 == 0 <==> old == new,
        preview(old, new).0.len() <= 2,
        preview(old, new).1 == 0 <==> preview(old, new).0.len() == 0,
{
    let a = doc_lines(old);
    let b = doc_lines(new);
    lemma_start_is_common(a, b);
    let start = common_start(a, b) as int;
    lemma_end_is_common(a.skip(start), b.skip(start));
    let end = common_end(a.skip(start), b.skip(start)) as int;
    if a == b {
        lemma_start_of_equal(a);
    }
    if preview(old, new).1 == 0 {
        assert(start + end == a.len() && start + end == b.len());
        assert(a =~= a.take(start) + a.skip(start));
        assert(b =~= b.take(start) + b.skip(start));
        assert(a.skip(start) =~= a.skip(start).skip(a.skip(start).len() - end));
        assert(b.skip(start) =~= b.skip(start).skip(b.skip(start).len() - end));
        assert(a =~= b);
        text::law_pieces_tell_texts_apart(old, new, '\n');
    }
}

proof fn lemma_start_is_common(a: Seq<Seq<char>>, b: Seq<Seq<char>>)
    ensures
        common_start(a, b) <= a.len(),
        common_start(a, b) <= b.len(),
        a.take(common_start(a, b) as int) == b.take(common_start(a, b) as int),
    decreases a.len(),
{
    if a.len() == 0 || b.len() == 0 || a[0] != b[0] {
        assert(a.take(0) =~= b.take(0));
    } else {
        lemma_start_is_common(a.skip(1), b.skip(1));
        let n = common_start(a, b) as int;
        assert(a.take(n) =~= seq![a[0]] + a.skip(1).take(n - 1));
        assert(b.take(n) =~= seq![b[0]] + b.skip(1).take(n - 1));
    }
}

proof fn lemma_end_is_common(a: Seq<Seq<char>>, b: Seq<Seq<char>>)
    ensures
        common_end(a, b) <= a.len(),
        common_end(a, b) <= b.len(),
        a.skip(a.len() - common_end(a, b)) == b.skip(b.len() - common_end(a, b)),
    decreases a.len(),
{
    if a.len() == 0 || b.len() == 0 || a.last() != b.last() {
        assert(a.skip(a.len() as int) =~= b.skip(b.len() as int));
    } else {
        let aa = a.drop_last();
        let bb = b.drop_last();
        lemma_end_is_common(aa, bb);
        let n = common_end(a, b) as int;
        assert(a.skip(a.len() - n) =~= aa.skip(aa.len() - (n - 1)).push(a.last()));
        assert(b.skip(b.len() - n) =~= bb.skip(bb.len() - (n - 1)).push(b.last()));
    }
}

proof fn lemma_start_of_equal(a: Seq<Seq<char>>)
    ensures
        common_start(a, a) == a.len(),
    decreases a.len(),
{
    if a.len() > 0 {
        lemma_start_of_equal(a.skip(1));
    }
}

/// A line of a difference is its mark and its text, and lines are told apart by their marks.
pub proof fn law_lines_by_their_marks(
    op: String,
    line: String,
    diff: Seq<(Seq<char>, Seq<char>)>,
    mark: Seq<char>,
)
    ensures
        (DiffLine { op, text: line })@ == (op@, line@),
        lines_but(Seq::empty(), mark).len() == 0,
        lines_with(Seq::empty(), mark).len() == 0,
        lines_but(seq![(op@, line@)] + diff, mark) == if op@ == mark {
            lines_but(diff, mark)
        } else {
            seq![line@] + lines_but(diff, mark)
        },
        lines_with(seq![(op@, line@)] + diff, mark) == if op@ == mark {
            seq![line@] + lines_with(diff, mark)
        } else {
            lines_with(diff, mark)
        },
{
    let all = seq![(op@, line@)] + diff;
    assert(all.skip(1) =~= diff);
}

/// A common subsequence stands in a text at rising positions.
pub proof fn law_subsequences_keep_the_order(c: Seq<Seq<char>>, a: Seq<Seq<char>>) -> (at: Seq<int>)
    requires
        is_subsequence(c, a),
    ensures
        at.len() == c.len(),
        forall|i: int|
            0 <= i < at.len() ==> 0 <= #[trigger] at[i] < a.len() && a[at[i]] == c[i],
        forall|i: int, j: int| 0 <= i < j < at.len() ==> #[trigger] at[i] < #[trigger] at[j],
    decreases a.len(),
{
    if c.len() == 0 {
        Seq::empty()
    } else if c.last() == a.last() && is_subsequence(c.drop_last(), a.drop_last()) {
        let front = law_subsequences_keep_the_order(c.drop_last(), a.drop_last());
        assert forall|i: int| 0 <= i < front.len() implies 0 <= #[trigger] front[i] < a.len() - 1
            && a[front[i]] == c[i] by {
            assert(a.drop_last()[front[i]] == c.drop_last()[i]);
        }
        front.push(a.len() - 1)
    } else {
        let front = law_subsequences_keep_the_order(c, a.drop_last());
        assert forall|i: int| 0 <= i < front.len() implies 0 <= #[trigger] front[i] < a.len()
            && a[front[i]] == c[i] by {
            assert(a.drop_last()[front[i]] == c[i]);
        }
        front
    }
}

/// Which of several longest common subsequences is taken: equal last lines belong to it, and where
/// as much can be kept either way, the last line of the second text is left out.
pub proof fn law_ties_leave_out_the_second_text(a: Seq<Seq<char>>, b: Seq<Seq<char>>, line: Seq<char>)
    ensures
        lcs(a.push(line), b.push(line)) == lcs(a, b).push(line),
        a.len() > 0 && a.last() != line ==> {
            let without_a = lcs(a.drop_last(), b.push(line));
            let without_b = lcs(a, b);
            if without_a.len() > without_b.len() {
                lcs(a, b.push(line)) == without_a
            } else {
                lcs(a, b.push(line)) == without_b
            }
        },
{
    assert(a.push(line).drop_last() =~= a);
    assert(b.push(line).drop_last() =~= b);
    if a.len() > 0 {
        law_lcs_is_common(a.drop_last(), b.push(line));
        law_lcs_is_common(a, b);
    }
}

} // verus!
