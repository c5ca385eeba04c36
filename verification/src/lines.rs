//! The lines of a text file.
use vstd::prelude::*;

use crate::text;
use crate::text::{chars_of, split_at_char, string_of};

verus! {

/// A line without the carriage return that may stand before its line feed.
pub open spec fn without_return(line: Seq<char>) -> Seq<char> {
    if line.len() > 0 && line.last() == '\r' {
        line.drop_last()
    } else {
        line
    }
}

/// The lines of a text, which end in a line feed or in a carriage return and a line feed. What
/// follows the last line feed is a line of its own, as it stands, unless it is empty.
pub open spec fn text_lines(s: Seq<char>) -> Seq<Seq<char>> {
    let pieces = text::split_on(s, '\n');
    let ended = pieces.drop_last().map_values(|line: Seq<char>| without_return(line));
    if pieces.last().len() == 0 {
        ended
    } else {
        ended.push(pieces.last())
    }
}

/// The lines of a text.
pub fn lines_of(s: &str) -> (lines: Vec<String>)
    ensures
        text::contents(lines@) == text_lines(s@),
{
    let pieces = split_at_char(s, '\n');
    proof {
        text::lemma_split_nonempty(s@, '\n');
    }
    let ghost spec_pieces = text::split_on(s@, '\n');
    let ghost ended = spec_pieces.drop_last().map_values(|line: Seq<char>| without_return(line));
    let last: usize = pieces.len() - 1;
    let mut lines: Vec<String> = Vec::new();
    let mut i: usize = 0;
    while i < last
        invariant
            i <= last,
            last + 1 == pieces.len(),
            text::contents(pieces@) == spec_pieces,
            ended == spec_pieces.drop_last().map_values(|line: Seq<char>| without_return(line)),
            text::contents(lines@) == ended.take(i as int),
        decreases last - i,
    {
        let chars = chars_of(pieces[i].as_str());
        assert(spec_pieces.drop_last()[i as int] == text::contents(pieces@)[i as int]);
        assert(text::contents(pieces@)[i as int] == chars@);
        assert(ended[i as int] == without_return(chars@));
        let end: usize = if chars.len() > 0 && chars[chars.len() - 1] == '\r' {
            chars.len() - 1
        } else {
            chars.len()
        };
        let line = string_of(&chars, 0, end);
        assert(line@ =~= without_return(chars@));
        let ghost before = text::contents(lines@);
        lines.push(line);
        i += 1;
        assert(text::contents(lines@) =~= before.push(line@));
        assert(text::contents(lines@) =~= ended.take(i as int));
    }
    assert(text::contents(lines@) =~= ended);
    assert(spec_pieces.last() == pieces@[last as int]@);
    if !pieces[last].as_str().is_empty() {
        lines.push(pieces[last].clone());
        assert(text::contents(lines@) =~= ended.push(spec_pieces.last()));
    }
    lines
}

/// A character with the Unicode property White_Space.
pub open spec fn is_white(c: char) -> bool {
    ||| '\u{9}' <= c <= '\u{d}'
    ||| c == ' '
    ||| c == '\u{85}'
    ||| c == '\u{a0}'
    ||| c == '\u{1680}'
    ||| '\u{2000}' <= c <= '\u{200a}'
    ||| c == '\u{2028}'
    ||| c == '\u{2029}'
    ||| c == '\u{202f}'
    ||| c == '\u{205f}'
    ||| c == '\u{3000}'
}

/// A line that holds nothing but white space.
pub open spec fn is_blank(line: Seq<char>) -> bool {
    forall|i: int| 0 <= i < line.len() ==> is_white(#[trigger] line[i])
}

fn white(c: char) -> (w: bool)
    ensures
        w == is_white(c),
{
    ('\u{9}' <= c && c <= '\u{d}') || c == ' ' || c == '\u{85}' || c == '\u{a0}' || c == '\u{1680}'
        || ('\u{2000}' <= c && c <= '\u{200a}') || c == '\u{2028}' || c == '\u{2029}' || c
        == '\u{202f}' || c == '\u{205f}' || c == '\u{3000}'
}

/// Whether a line holds nothing but white space.
pub fn blank(line: &str) -> (b: bool)
    ensures
        b == is_blank(line@),
{
    let chars = chars_of(line);
    let mut i: usize = 0;
    while i < chars.len()
        invariant
            i <= chars.len(),
            chars@ == line@,
            forall|j: int| 0 <= j < i ==> is_white(#[trigger] chars@[j]),
        decreases chars.len() - i,
    {
        if !white(chars[i]) {
            return false;
        }
        i += 1;
    }
    true
}

/// A text of some lines, each of them ended by a line feed.
pub open spec fn lines_text(lines: Seq<Seq<char>>) -> Seq<char>
    decreases lines.len(),
{
    if lines.len() == 0 {
        Seq::empty()
    } else {
        lines_text(lines.drop_last()) + lines.last().push('\n')
    }
}

/// Writes some lines, each of them ended by a line feed.
pub fn text_of_lines(lines: &Vec<String>) -> (s: String)
    ensures
        s@ == lines_text(text::contents(lines@)),
{
    let mut s: String = String::new();
    let mut i: usize = 0;
    while i < lines.len()
        invariant
            i <= lines.len(),
            s@ == lines_text(text::contents(lines@).take(i as int)),
        decreases lines.len() - i,
    {
        let ghost before = s@;
        s.append(lines[i].as_str());
        s.push('\n');
        assert(text::contents(lines@).take(i + 1).drop_last() =~= text::contents(lines@).take(i as int));
        assert(text::contents(lines@)[i as int] == lines@[i as int]@);
        assert(s@ =~= before + text::contents(lines@)[i as int].push('\n'));
        i += 1;
    }
    assert(text::contents(lines@).take(lines@.len() as int) =~= text::contents(lines@));
    s
}

proof fn lemma_split_plain_tail(s: Seq<char>, tail: Seq<char>, sep: char)
    requires
        !tail.contains(sep),
    ensures
        text::split_on(s + tail, sep) == text::split_on(s, sep).drop_last().push(text::split_on(s, sep).last() + tail),
    decreases tail.len(),
{
    text::lemma_split_nonempty(s, sep);
    if tail.len() == 0 {
        assert(s + tail =~= s);
        assert(text::split_on(s, sep).last() + tail =~= text::split_on(s, sep).last());
        assert(text::split_on(s, sep) =~= text::split_on(s, sep).drop_last().push(text::split_on(s, sep).last()));
    } else {
        let front = tail.drop_last();
        assert(tail.contains(tail.last()));
        assert forall|c: char| front.contains(c) implies tail.contains(c) by {
            let k = choose|k: int| 0 <= k < front.len() && front[k] == c;
            assert(tail[k] == c);
        }
        lemma_split_plain_tail(s, front, sep);
        assert((s + tail).drop_last() =~= s + front);
        let before = text::split_on(s + front, sep);
        assert(before.last() == text::split_on(s, sep).last() + front);
        assert(before.last().push(tail.last()) =~= text::split_on(s, sep).last() + tail);
        assert(before.drop_last() =~= text::split_on(s, sep).drop_last());
    }
}

/// Lines that hold no line feed and do not end in a carriage return are read back from the text
/// that they were written to.
pub proof fn law_written_lines_are_read_back(lines: Seq<Seq<char>>)
    requires
        forall|i: int|
            0 <= i < lines.len() ==> !(#[trigger] lines[i]).contains('\n') && without_return(
                lines[i],
            ) == lines[i],
    ensures
        text_lines(lines_text(lines)) == lines,
{
    lemma_split_lines_text(lines);
    let pieces = text::split_on(lines_text(lines), '\n');
    assert(pieces.drop_last() =~= lines);
    assert(pieces.drop_last().map_values(|line: Seq<char>| without_return(line)) =~= lines);
}

proof fn lemma_split_lines_text(lines: Seq<Seq<char>>)
    requires
        forall|i: int| 0 <= i < lines.len() ==> !(#[trigger] lines[i]).contains('\n'),
    ensures
        text::split_on(lines_text(lines), '\n') == lines.push(Seq::empty()),
    decreases lines.len(),
{
    if lines.len() == 0 {
        assert(text::split_on(lines_text(lines), '\n') =~= lines.push(Seq::empty()));
    } else {
        let front = lines.drop_last();
        lemma_split_lines_text(front);
        let s = lines_text(front);
        lemma_split_plain_tail(s, lines.last(), '\n');
        let t = s + lines.last();
        assert(lines_text(lines) =~= t.push('\n'));
        assert(t.push('\n').drop_last() =~= t);
        assert(text::split_on(s, '\n').drop_last() =~= front);
        assert(text::split_on(s, '\n').last() + lines.last() =~= lines.last());
        assert(text::split_on(t, '\n') =~= lines);
    }
}

/// The characters that count as white space, by their numbers.
pub proof fn law_white_space(c: char)
    ensures
        is_white(c) <==> {
            let n = c as u32;
            ||| 9 <= n <= 13
            ||| n == 32
            ||| n == 133
            ||| n == 160
            ||| n == 5760
            ||| 8192 <= n <= 8202
            ||| n == 8232
            ||| n == 8233
            ||| n == 8239
            ||| n == 8287
            ||| n == 12288
        },
{
}

/// A line is blank exactly where all its characters are white space.
pub proof fn law_blank_lines(line: Seq<char>, i: int)
    ensures
        is_blank(Seq::empty()),
        is_blank(line) && 0 <= i < line.len() ==> is_white(line[i]),
        0 <= i < line.len() && !is_white(line[i]) ==> !is_blank(line),
{
}

/// Lines that end in a carriage return and a line feed are read without both, and the last line as
/// it stands, where no line feed ends it.
pub proof fn law_line_ends_are_dropped(s: Seq<char>, line: Seq<char>)
    requires
        !line.contains('\n'),
        s.len() == 0 || s.last() == '\n',
    ensures
        text_lines(s + line) == if line.len() == 0 {
            text_lines(s)
        } else {
            text_lines(s).push(line)
        },
        text_lines((s + line).push('\n')) == text_lines(s).push(
            if line.len() > 0 && line.last() == '\r' {
                line.drop_last()
            } else {
                line
            },
        ),
        text_lines(Seq::empty()).len() == 0,
{
    text::lemma_split_nonempty(s, '\n');
    let pieces = text::split_on(s, '\n');
    assert(pieces.last().len() == 0);
    lemma_split_plain_tail(s, line, '\n');
    let whole = text::split_on(s + line, '\n');
    assert(pieces.last() + line =~= line);
    assert(whole.drop_last() =~= pieces.drop_last());
    assert(whole.last() == line);
    if line.len() == 0 {
        assert(s + line =~= s);
    }
    let ended = (s + line).push('\n');
    assert(ended.drop_last() =~= s + line);
    let after = text::split_on(ended, '\n');
    assert(after == whole.push(Seq::empty()));
    assert(after.drop_last() =~= whole);
    assert(text_lines(ended) =~= text_lines(s).push(without_return(line)));
}

/// Lines are written one after the other, each of them ended by a line feed.
pub proof fn law_lines_are_written_in_turn(lines: Seq<Seq<char>>, line: Seq<char>)
    ensures
        lines_text(Seq::empty()).len() == 0,
        lines_text(lines.push(line)) == lines_text(lines) + line + seq!['\n'],
{
    assert(lines.push(line).drop_last() =~= lines);
    assert(lines_text(lines.push(line)) =~= lines_text(lines) + line + seq!['\n']);
}

} // verus!
