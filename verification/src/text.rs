//! Strings as sequences of characters: splitting, joining, searching, printing numbers.
use vstd::prelude::*;

verus! {

/// `String::push`: the character is added at the end.
pub assume_specification[ String::push ](s: &mut String, ch: char)
    ensures
        final(s)@ == old(s)@.push(ch),
;

/// The contents of each of some strings.
pub open spec fn contents(strings: Seq<String>) -> Seq<Seq<char>> {
    strings.map_values(|s: String| s@)
}

/// The contents of a string that may be absent.
pub open spec fn content_of(s: Option<String>) -> Option<Seq<char>> {
    match s {
        Some(s) => Some(s@),
        None => None,
    }
}

/// The contents of a string slice that may be absent.
pub open spec fn content_of_str(s: Option<&str>) -> Option<Seq<char>> {
    match s {
        Some(s) => Some(s@),
        None => None,
    }
}

/// The pieces of `s` between the separators: always at least one piece.
pub open spec fn split_on(s: Seq<char>, sep: char) -> Seq<Seq<char>>
    decreases s.len(),
{
    if s.len() == 0 {
        seq![Seq::empty()]
    } else {
        let before = split_on(s.drop_last(), sep);
        if s.last() == sep {
            before.push(Seq::empty())
        } else {
            before.drop_last().push(before.last().push(s.last()))
        }
    }
}

/// Splitting gives at least one piece.
pub proof fn lemma_split_nonempty(s: Seq<char>, sep: char)
    ensures
        split_on(s, sep).len() > 0,
    decreases s.len(),
{
    if s.len() > 0 {
        lemma_split_nonempty(s.drop_last(), sep);
    }
}

/// What is added behind a text without a separator belongs to the text's last piece.
pub proof fn lemma_split_appends(s: Seq<char>, t: Seq<char>, sep: char)
    requires
        !t.contains(sep),
    ensures
        split_on(s + t, sep) == split_on(s, sep).drop_last().push(split_on(s, sep).last() + t),
    decreases t.len(),
{
    lemma_split_nonempty(s, sep);
    let before = split_on(s, sep);
    if t.len() == 0 {
        assert(s + t =~= s);
        assert(before.last() + t =~= before.last());
        assert(before =~= before.drop_last().push(before.last()));
    } else {
        let front = t.drop_last();
        assert(t.last() != sep) by {
            assert(t[t.len() - 1] == t.last());
        }
        assert(!front.contains(sep)) by {
            if front.contains(sep) {
                let i = choose|i: int| 0 <= i < front.len() && front[i] == sep;
                assert(t[i] == sep);
            }
        }
        lemma_split_appends(s, front, sep);
        assert((s + t).drop_last() =~= s + front);
        assert((s + t).last() == t.last());
        let so_far = before.drop_last().push(before.last() + front);
        assert(so_far.drop_last() =~= before.drop_last());
        assert((before.last() + front).push(t.last()) =~= before.last() + t);
    }
}

/// Two texts with the same pieces are the same text.
pub proof fn law_pieces_tell_texts_apart(s: Seq<char>, t: Seq<char>, sep: char)
    requires
        split_on(s, sep) == split_on(t, sep),
    ensures
        s == t,
    decreases s.len(),
{
    let ps = split_on(s, sep);
    if s.len() > 0 {
        lemma_split_nonempty(s.drop_last(), sep);
    }
    if t.len() > 0 {
        lemma_split_nonempty(t.drop_last(), sep);
    }
    if s.len() == 0 {
        assert(ps.last().len() == 0);
        assert(ps.len() == 1);
        assert(t.len() == 0);
        assert(s =~= t);
    } else if t.len() == 0 {
        assert(ps.last().len() == 0);
        assert(ps.len() == 1);
        assert(false);
    } else {
        let a = split_on(s.drop_last(), sep);
        let b = split_on(t.drop_last(), sep);
        if s.last() == sep {
            assert(ps.last().len() == 0);
            assert(t.last() == sep);
            assert(ps.drop_last() =~= a);
            assert(ps.drop_last() =~= b);
        } else {
            assert(ps.last().len() > 0);
            assert(t.last() != sep);
            assert(ps.last().last() == s.last());
            assert(ps.last().last() == t.last());
            assert(ps.last().drop_last() =~= a.last());
            assert(ps.last().drop_last() =~= b.last());
            assert(ps.drop_last() =~= a.drop_last());
            assert(ps.drop_last() =~= b.drop_last());
            assert(a =~= a.drop_last().push(a.last()));
            assert(b =~= b.drop_last().push(b.last()));
        }
        law_pieces_tell_texts_apart(s.drop_last(), t.drop_last(), sep);
        assert(s =~= s.drop_last().push(s.last()));
        assert(t =~= t.drop_last().push(t.last()));
    }
}

/// The characters of a string, in order.
pub fn chars_of(s: &str) -> (chars: Vec<char>)
    ensures
        chars@ == s@,
{
    let mut chars: Vec<char> = Vec::new();
    for c in it: s.chars()
        invariant
            it.seq() == s@,
            chars@ == s@.take(it.index()),
    {
        chars.push(c);
    }
    assert(s@.take(s@.len() as int) == s@);
    chars
}

/// The pieces of a string between the separators.
pub fn split_at_char(s: &str, sep: char) -> (pieces: Vec<String>)
    ensures
        contents(pieces@) == split_on(s@, sep),
{
    let chars = chars_of(s);
    let mut pieces: Vec<String> = Vec::new();
    let mut piece: String = String::new();
    let mut i: usize = 0;
    assert(contents(pieces@.push(piece)) =~= split_on(chars@.take(0), sep));
    while i < chars.len()
        invariant
            i <= chars.len(),
            contents(pieces@.push(piece)) == split_on(chars@.take(i as int), sep),
        decreases chars.len() - i,
    {
        let ghost before = contents(pieces@.push(piece));
        let ghost done = pieces@;
        let c = chars[i];
        assert(chars@.take(i + 1).drop_last() =~= chars@.take(i as int));
        assert(before.last() == piece@);
        assert(before.drop_last() =~= contents(pieces@));
        if c == sep {
            let ghost finished = piece;
            pieces.push(piece);
            piece = String::new();
            assert(contents(pieces@.push(piece)) =~= before.push(Seq::empty()));
        } else {
            piece.push(c);
            assert(contents(pieces@.push(piece)) =~= before.drop_last().push(before.last().push(c)));
        }
        i += 1;
    }
    assert(chars@.take(chars@.len() as int) == s@);
    pieces.push(piece);
    pieces
}

/// Whether two strings hold the same characters.
pub fn same_text(a: &str, b: &str) -> (same: bool)
    ensures
        same == (a@ == b@),
{
    let xs = chars_of(a);
    let ys = chars_of(b);
    if xs.len() != ys.len() {
        return false;
    }
    let mut i: usize = 0;
    while i < xs.len()
        invariant
            i <= xs.len(),
            xs.len() == ys.len(),
            xs@ == a@,
            ys@ == b@,
            forall|j: int| 0 <= j < i ==> xs@[j] == ys@[j],
        decreases xs.len() - i,
    {
        if xs[i] != ys[i] {
            return false;
        }
        i += 1;
    }
    assert(a@ =~= b@);
    true
}

/// `s` begins with `prefix`.
pub open spec fn has_prefix(s: Seq<char>, prefix: Seq<char>) -> bool {
    prefix.len() <= s.len() && s.take(prefix.len() as int) == prefix
}

/// Whether a string begins with another.
pub fn starts_with(s: &str, prefix: &str) -> (found: bool)
    ensures
        found == has_prefix(s@, prefix@),
{
    let xs = chars_of(s);
    let ps = chars_of(prefix);
    occurs_here(&xs, &ps, 0)
}

/// `part` stands in `s` from position `at` on.
pub open spec fn occurs_at(s: Seq<char>, part: Seq<char>, at: int) -> bool {
    0 <= at && at + part.len() <= s.len() && s.subrange(at, at + part.len()) == part
}

/// `part` stands somewhere in `s`.
pub open spec fn has_part(s: Seq<char>, part: Seq<char>) -> bool {
    exists|at: int| occurs_at(s, part, at)
}

fn occurs_here(s: &Vec<char>, part: &Vec<char>, at: usize) -> (found: bool)
    requires
        at <= s.len(),
    ensures
        found == occurs_at(s@, part@, at as int),
        at == 0 ==> found == has_prefix(s@, part@),
{
    if part.len() > s.len() - at {
        return false;
    }
    let mut i: usize = 0;
    while i < part.len()
        invariant
            i <= part.len(),
            at + part.len() <= s.len(),
            forall|j: int| 0 <= j < i ==> s@[at + j] == part@[j],
        decreases part.len() - i,
    {
        if s[at + i] != part[i] {
            assert(s@.subrange(at as int, at + part.len())[i as int] != part@[i as int]);
            assert(at == 0 ==> s@.take(part.len() as int)[i as int] != part@[i as int]);
            return false;
        }
        i += 1;
    }
    assert(s@.subrange(at as int, at + part.len()) =~= part@);
    assert(at == 0 ==> s@.take(part.len() as int) =~= part@);
    true
}

/// Whether a string holds another somewhere.
pub fn contains_text(s: &str, part: &str) -> (found: bool)
    ensures
        found == has_part(s@, part@),
{
    let xs = chars_of(s);
    let ps = chars_of(part);
    let mut at: usize = 0;
    while at < xs.len()
        invariant
            at <= xs.len(),
            xs@ == s@,
            ps@ == part@,
            forall|k: int| 0 <= k < at ==> !occurs_at(s@, part@, k),
        decreases xs.len() - at,
    {
        if occurs_here(&xs, &ps, at) {
            return true;
        }
        at += 1;
    }
    occurs_here(&xs, &ps, at)
}

/// Whether a string holds a character.
pub fn contains_char(s: &str, c: char) -> (found: bool)
    ensures
        found == s@.contains(c),
{
    let xs = chars_of(s);
    let mut i: usize = 0;
    while i < xs.len()
        invariant
            i <= xs.len(),
            xs@ == s@,
            forall|j: int| 0 <= j < i ==> xs@[j] != c,
        decreases xs.len() - i,
    {
        if xs[i] == c {
            return true;
        }
        i += 1;
    }
    false
}

/// The part of some characters from `from` up to `to`.
pub fn string_of(chars: &Vec<char>, from: usize, to: usize) -> (s: String)
    requires
        from <= to <= chars.len(),
    ensures
        s@ == chars@.subrange(from as int, to as int),
{
    let mut s: String = String::new();
    let mut i: usize = from;
    assert(s@ =~= chars@.subrange(from as int, from as int));
    while i < to
        invariant
            from <= i <= to <= chars.len(),
            s@ == chars@.subrange(from as int, i as int),
        decreases to - i,
    {
        s.push(chars[i]);
        i += 1;
        assert(s@ =~= chars@.subrange(from as int, i as int));
    }
    s
}

/// Two strings, one after the other.
pub fn join(a: &str, b: &str) -> (s: String)
    ensures
        s@ == a@ + b@,
{
    let mut s: String = a.to_owned();
    s.append(b);
    s
}

/// Three strings, one after the other.
pub fn join3(a: &str, b: &str, c: &str) -> (s: String)
    ensures
        s@ == a@ + b@ + c@,
{
    let mut s: String = join(a, b);
    s.append(c);
    s
}

/// `s` with every `from` turned into `to`.
pub open spec fn replaced(s: Seq<char>, from: char, to: char) -> Seq<char> {
    s.map_values(|c: char| if c == from { to } else { c })
}

/// A string with every `from` turned into `to`.
pub fn replace_char(s: &str, from: char, to: char) -> (r: String)
    ensures
        r@ == replaced(s@, from, to),
{
    let xs = chars_of(s);
    let mut r: String = String::new();
    let mut i: usize = 0;
    while i < xs.len()
        invariant
            i <= xs.len(),
            xs@ == s@,
            r@ == replaced(s@, from, to).take(i as int),
        decreases xs.len() - i,
    {
        let c = xs[i];
        r.push(if c == from { to } else { c });
        i += 1;
        assert(r@ =~= replaced(s@, from, to).take(i as int));
    }
    assert(r@ =~= replaced(s@, from, to));
    r
}

/// The digit that stands for a value below sixteen.
pub open spec fn digit(d: nat) -> char {
    if d < 10 {
        (('0' as nat) + d) as char
    } else {
        (('a' as nat) + (d - 10)) as char
    }
}

/// A number in decimal notation.
pub open spec fn decimal(n: nat) -> Seq<char>
    decreases n,
{
    if n < 10 {
        seq![digit(n)]
    } else {
        decimal(n / 10).push(digit(n % 10))
    }
}

/// A number in lower-case hexadecimal notation, in exactly `width` digits.
pub open spec fn hex(n: nat, width: nat) -> Seq<char>
    decreases width,
{
    if width == 0 {
        Seq::empty()
    } else {
        hex(n / 16, (width - 1) as nat).push(digit(n % 16))
    }
}

/// Hexadecimal notation has as many digits as were asked for.
pub proof fn lemma_hex_len(n: nat, width: nat)
    ensures
        hex(n, width).len() == width,
    decreases width,
{
    if width > 0 {
        lemma_hex_len(n / 16, (width - 1) as nat);
    }
}

fn digit_char(d: u8) -> (c: char)
    requires
        d < 16,
    ensures
        c == digit(d as nat),
{
    if d < 10 {
        (48u8 + d) as char
    } else {
        (87u8 + d) as char
    }
}

/// Prints a number in decimal notation.
pub fn decimal_string(n: u64) -> (s: String)
    ensures
        s@ == decimal(n as nat),
    decreases n,
{
    let mut s: String = if n < 10 {
        String::new()
    } else {
        decimal_string(n / 10)
    };
    s.push(digit_char((n % 10) as u8));
    assert(n < 10 ==> s@ =~= seq![digit(n as nat)]);
    s
}

/// Prints the lowest `width` hexadecimal digits of a number.
pub fn hex_string(n: u64, width: u32) -> (s: String)
    ensures
        s@ == hex(n as nat, width as nat),
    decreases width,
{
    if width == 0 {
        return String::new();
    }
    let mut s: String = hex_string(n / 16, width - 1);
    s.push(digit_char((n % 16) as u8));
    s
}

/// Two numbers are printed alike in decimal notation only if they are equal.
pub proof fn law_decimal_tells_numbers_apart(a: nat, b: nat)
    requires
        decimal(a) == decimal(b),
    ensures
        a == b,
    decreases a,
{
    lemma_decimal_len(a);
    lemma_decimal_len(b);
    assert(decimal(a).last() == digit(a % 10));
    assert(decimal(b).last() == digit(b % 10));
    if a >= 10 && b >= 10 {
        assert(decimal(a).drop_last() =~= decimal(a / 10));
        assert(decimal(b).drop_last() =~= decimal(b / 10));
        law_decimal_tells_numbers_apart(a / 10, b / 10);
    }
}

proof fn lemma_decimal_len(n: nat)
    ensures
        n < 10 ==> decimal(n).len() == 1,
        n >= 10 ==> decimal(n).len() > 1,
    decreases n,
{
    if n >= 10 {
        lemma_decimal_len(n / 10);
    }
}

/// Two numbers of the same width are printed alike only if they are equal.
pub proof fn law_hex_tells_numbers_apart(a: nat, b: nat, width: nat)
    requires
        a < vstd::arithmetic::power::pow(16, width),
        b < vstd::arithmetic::power::pow(16, width),
        hex(a, width) == hex(b, width),
    ensures
        a == b,
    decreases width,
{
    use_pow(width);
    if width > 0 {
        let x = hex(a / 16, (width - 1) as nat);
        let y = hex(b / 16, (width - 1) as nat);
        assert(hex(a, width).last() == digit(a % 16));
        assert(hex(b, width).last() == digit(b % 16));
        assert(hex(a, width).drop_last() =~= x);
        assert(hex(b, width).drop_last() =~= y);
        law_hex_tells_numbers_apart(a / 16, b / 16, (width - 1) as nat);
    }
}

proof fn use_pow(width: nat)
    ensures
        width == 0 ==> vstd::arithmetic::power::pow(16, width) == 1,
        width > 0 ==> vstd::arithmetic::power::pow(16, width) == 16
            * vstd::arithmetic::power::pow(16, (width - 1) as nat),
{
    vstd::arithmetic::power::lemma_pow0(16);
    if width > 0 {
        reveal(vstd::arithmetic::power::pow);
    }
}

/// Some pieces with a separator between each two of them.
pub open spec fn separated(pieces: Seq<Seq<char>>, sep: char) -> Seq<char>
    decreases pieces.len(),
{
    if pieces.len() == 0 {
        Seq::empty()
    } else if pieces.len() == 1 {
        pieces[0]
    } else {
        separated(pieces.drop_last(), sep).push(sep) + pieces.last()
    }
}

/// The pieces of a text hold no separator, and make the text again with separators between them.
pub proof fn law_pieces_make_the_text(s: Seq<char>, sep: char, i: int)
    ensures
        split_on(s, sep).len() > 0,
        separated(split_on(s, sep), sep) == s,
        0 <= i < split_on(s, sep).len() ==> !split_on(s, sep)[i].contains(sep),
    decreases s.len(),
{
    let pieces = split_on(s, sep);
    lemma_split_nonempty(s, sep);
    if s.len() == 0 {
        assert(separated(pieces, sep) =~= s);
    } else {
        let front = s.drop_last();
        let before = split_on(front, sep);
        lemma_split_nonempty(front, sep);
        law_pieces_make_the_text(front, sep, i);
        law_pieces_make_the_text(front, sep, before.len() - 1);
        if s.last() == sep {
            assert(pieces.drop_last() =~= before);
            assert(separated(pieces, sep) =~= front.push(sep));
            assert(s =~= front.push(sep));
        } else {
            assert(pieces.drop_last() =~= before.drop_last());
            assert(s =~= front.push(s.last()));
            assert(separated(pieces, sep) =~= separated(before, sep).push(s.last()));
            if i == pieces.len() - 1 {
                let last = before.last();
                assert(before[before.len() - 1] == last);
                assert forall|k: int| 0 <= k < pieces[i].len() implies pieces[i][k] != sep by {
                    if k < last.len() {
                        assert(pieces[i][k] == last[k]);
                        assert(last.contains(last[k]));
                    }
                }
            } else if 0 <= i < pieces.len() - 1 {
                assert(pieces[i] == before[i]);
            }
        }
    }
}

/// A text begins with a prefix exactly where it is the prefix with something behind it.
pub proof fn law_prefixes_stand_first(s: Seq<char>, prefix: Seq<char>, rest: Seq<char>)
    ensures
        has_prefix(prefix + rest, prefix),
        has_prefix(s, prefix) ==> s == prefix + s.skip(prefix.len() as int),
{
    assert((prefix + rest).take(prefix.len() as int) =~= prefix);
    if has_prefix(s, prefix) {
        assert(s =~= s.take(prefix.len() as int) + s.skip(prefix.len() as int));
    }
}

/// A text holds a part exactly where the part stands between two other texts that make it up.
pub proof fn law_parts_stand_within(before: Seq<char>, part: Seq<char>, after: Seq<char>, s: Seq<char>)
    ensures
        has_part(before + part + after, part),
        has_part(s, part) ==> exists|at: int|
            0 <= at <= s.len() && s == #[trigger] s.take(at) + part + s.skip(at + part.len()),
{
    let whole = before + part + after;
    assert(whole.subrange(before.len() as int, (before.len() + part.len()) as int) =~= part);
    assert(occurs_at(whole, part, before.len() as int));
    if has_part(s, part) {
        let at = choose|at: int| occurs_at(s, part, at);
        assert(s =~= s.take(at) + s.subrange(at, at + part.len()) + s.skip(at + part.len()));
    }
}

/// A character that is replaced is replaced everywhere, and nothing else is.
pub proof fn law_replacing_is_everywhere(s: Seq<char>, from: char, to: char, i: int)
    requires
        0 <= i < s.len(),
    ensures
        replaced(s, from, to).len() == s.len(),
        s[i] == from ==> replaced(s, from, to)[i] == to,
        s[i] != from ==> replaced(s, from, to)[i] == s[i],
{
}

/// A number in decimal notation: its last digit stands for the rest of a division by ten, and what
/// stands before for the quotient.
pub proof fn law_decimal_notation(n: nat, d: nat)
    requires
        d < 10,
    ensures
        decimal(d) == seq![(48 + d) as char],
        n > 0 ==> decimal(10 * n + d) == decimal(n).push((48 + d) as char),
{
}

/// A number in hexadecimal notation has the width that was asked for: its last digit stands for the
/// rest of a division by sixteen, with small letters for ten and more, and what stands before for
/// the quotient.
pub proof fn law_hexadecimal_notation(n: nat, d: nat, width: nat)
    requires
        d < 16,
    ensures
        hex(n, width).len() == width,
        hex(16 * n + d, width + 1) == hex(n, width).push(
            (if d < 10 {
                48 + d
            } else {
                87 + d
            }) as char,
        ),
{
    lemma_hex_len(n, width);
}

/// The contents of strings are their characters, each string's at its place.
pub proof fn law_contents_are_characters(strings: Seq<String>, i: int, s: String, slice: &str)
    ensures
        contents(strings).len() == strings.len(),
        0 <= i < strings.len() ==> contents(strings)[i] == strings[i]@,
        content_of(Some(s)) == Some(s@),
        content_of(None) is None,
        content_of_str(Some(slice)) == Some(slice@),
        content_of_str(None) is None,
{
}

} // verus!
