//! Deltas: the short text from which a version of a document is had out of the version before.
use vstd::prelude::*;

use diff_match_patch_rs::dmp::Diff;
use diff_match_patch_rs::{Compat, DiffMatchPatch, Error, Ops};

use crate::text;

verus! {

/// What a piece of a difference says of its text.
#[derive(Clone, Copy, Debug, PartialEq, Eq, Structural)]
pub enum DiffOp {
    Delete,
    Equal,
    Insert,
}

/// A piece of a difference between two texts.
#[derive(Debug)]
pub struct DiffPiece {
    pub op: DiffOp,
    pub text: Vec<char>,
}

impl View for DiffPiece {
    type V = (DiffOp, Seq<char>);

    open spec fn view(&self) -> (DiffOp, Seq<char>) {
        (self.op, self.text@)
    }
}

/// Why a difference or a delta could not be made or read.
#[derive(Clone, Copy, Debug, PartialEq, Eq, Structural)]
pub enum DeltaFault {
    InvalidInput,
    Utf8Error,
    HtmlWithError,
}

/// The views of some pieces.
pub open spec fn pieces(ps: Seq<DiffPiece>) -> Seq<(DiffOp, Seq<char>)> {
    ps.map_values(|p: DiffPiece| p@)
}

/// The text that a difference starts from: what is kept and what is deleted.
pub open spec fn old_text(ps: Seq<(DiffOp, Seq<char>)>) -> Seq<char>
    decreases ps.len(),
{
    if ps.len() == 0 {
        Seq::empty()
    } else if ps.last().0 == DiffOp::Insert {
        old_text(ps.drop_last())
    } else {
        old_text(ps.drop_last()) + ps.last().1
    }
}

/// The text that a difference leads to: what is kept and what is inserted.
pub open spec fn new_text(ps: Seq<(DiffOp, Seq<char>)>) -> Seq<char>
    decreases ps.len(),
{
    if ps.len() == 0 {
        Seq::empty()
    } else if ps.last().0 == DiffOp::Delete {
        new_text(ps.drop_last())
    } else {
        new_text(ps.drop_last()) + ps.last().1
    }
}

/// The pieces that came of a call, and why none did.
pub open spec fn pieces_of(r: Result<Vec<DiffPiece>, DeltaFault>) -> Result<
    Seq<(DiffOp, Seq<char>)>,
    DeltaFault,
> {
    match r {
        Ok(ps) => Ok(pieces(ps@)),
        Err(e) => Err(e),
    }
}

/// A character stands at two places of a text.
pub open spec fn stands_twice(s: Seq<char>, c: char) -> bool {
    exists|i: int, j: int| 0 <= i < j < s.len() && #[trigger] s[i] == c && #[trigger] s[j] == c
}

/// The length above which `DiffMatchPatch::diff_main` compares two texts line by line.
pub const LINE_MODE_LENGTH: usize = 100;

/// Two texts that can be searched for a difference: they are not both long, and no character
/// stands twice in both of them.
pub open spec fn searchable(old: Seq<char>, new: Seq<char>) -> bool {
    &&& old.len() <= LINE_MODE_LENGTH || new.len() <= LINE_MODE_LENGTH
    &&& forall|c: char| stands_twice(old, c) ==> !#[trigger] stands_twice(new, c)
}

/// `DiffMatchPatch::diff_main` on characters, with the settings of `DiffMatchPatch::new`. A
/// difference is always found: where the time for the search runs out, all that is left is deleted
/// and inserted, and every split that the search makes lies within both texts. The pieces lead from
/// `old` to `new`; which pieces they are depends on that time, and is left open.
///
/// On other texts than these it may panic, in builds that check arithmetic for overflow. Whenever
/// it cleans up a list of pieces, it takes the common beginning out of a deletion and an insertion
/// that stand side by side, and counts back to the equality before them: below zero, where they
/// stand at the front. Such a deletion and insertion begin the two texts, or parts of them, that
/// the list is about, and begin with the same character. A list about such texts is given an
/// equality at its front to begin with. An edit comes to the front only by being moved back over
/// the first equality, and is moved only if it ends with all of it. The first equality begins with
/// that character, as long as no deletion or no insertion stands before it. So the deletion and
/// the insertion that came to the front first held the character once more, and it stands twice in
/// both texts. The length leaves out the comparison line by line, which has a cleanup of its own.
#[verifier::external_body]
fn diff_main(old: &str, new: &str) -> (r: Result<Vec<DiffPiece>, DeltaFault>)
    requires
        searchable(old@, new@),
    ensures
        r is Ok,
        old_text(pieces(r->Ok_0@)) == old@,
        new_text(pieces(r->Ok_0@)) == new@,
{
    match DiffMatchPatch::new().diff_main::<Compat>(old, new) {
        Ok(diffs) => Ok(diffs.iter().map(|d| DiffPiece {
            op: match d.op() {
                Ops::Delete => DiffOp::Delete,
                Ops::Equal => DiffOp::Equal,
                Ops::Insert => DiffOp::Insert,
            },
            text: d.data().to_vec(),
        }).collect()),
        Err(Error::InvalidInput) => Err(DeltaFault::InvalidInput),
        Err(Error::Utf8Error) => Err(DeltaFault::Utf8Error),
        Err(Error::HtmlWithError(_)) => Err(DeltaFault::HtmlWithError),
    }
}

/// `DiffMatchPatch::diff_to_delta` on pieces of characters. It does not fail. Each piece is a step,
/// and tabs part the steps: insertions are written out, with `%` and two digits for the bytes that
/// would be mistaken, and the other pieces as the number of their characters.
#[verifier::external_body]
fn diff_to_delta(ps: &Vec<DiffPiece>) -> (r: Result<String, DeltaFault>)
    ensures
        r is Ok,
        r->Ok_0@ == delta_text(pieces(ps@)),
{
    let diffs: Vec<Diff<Compat>> = ps.iter().map(|p| match p.op {
        DiffOp::Delete => Diff::delete(&p.text),
        DiffOp::Equal => Diff::equal(&p.text),
        DiffOp::Insert => Diff::insert(&p.text),
    }).collect();
    match DiffMatchPatch::new().diff_to_delta(&diffs) {
        Ok(delta) => Ok(delta),
        Err(Error::InvalidInput) => Err(DeltaFault::InvalidInput),
        Err(Error::Utf8Error) => Err(DeltaFault::Utf8Error),
        Err(Error::HtmlWithError(_)) => Err(DeltaFault::HtmlWithError),
    }
}

/// `DiffMatchPatch::diff_from_delta` on characters. It follows the steps of the delta on the text,
/// all of which they must count, and panics when it comes to an insertion that does not decode.
#[verifier::external_body]
fn diff_from_delta(old: &str, delta: &str) -> (r: Result<Vec<DiffPiece>, DeltaFault>)
    requires
        decodes(old@.len(), delta@),
    ensures
        pieces_of(r) == delta_pieces(old@, delta@),
{
    match DiffMatchPatch::new().diff_from_delta::<Compat>(old, delta) {
        Ok(diffs) => Ok(diffs.iter().map(|d| DiffPiece {
            op: match d.op() {
                Ops::Delete => DiffOp::Delete,
                Ops::Equal => DiffOp::Equal,
                Ops::Insert => DiffOp::Insert,
            },
            text: d.data().to_vec(),
        }).collect()),
        Err(Error::InvalidInput) => Err(DeltaFault::InvalidInput),
        Err(Error::Utf8Error) => Err(DeltaFault::Utf8Error),
        Err(Error::HtmlWithError(_)) => Err(DeltaFault::HtmlWithError),
    }
}

/// `std::str::from_utf8`: whether it takes the bytes for well-formed UTF-8.
#[verifier::external_body]
fn is_utf8(bytes: &Vec<u8>) -> (ok: bool)
    ensures
        ok == vstd::utf8::valid_utf8(bytes@),
{
    std::str::from_utf8(bytes).is_ok()
}

/// The value of a hexadecimal digit.
pub open spec fn hex_digit(b: u8) -> Option<u8> {
    if 0x30 <= b <= 0x39 {
        Some((b - 0x30) as u8)
    } else if 0x41 <= b <= 0x46 {
        Some((b - 0x37) as u8)
    } else if 0x61 <= b <= 0x66 {
        Some((b - 0x57) as u8)
    } else {
        None
    }
}

/// Bytes in which each `%` that two hexadecimal digits follow stands for one byte.
pub open spec fn percent_decoded(bytes: Seq<u8>) -> Seq<u8>
    decreases bytes.len(),
{
    if bytes.len() == 0 {
        Seq::empty()
    } else if bytes[0] == 0x25 && bytes.len() >= 3 && hex_digit(bytes[1]) is Some && hex_digit(
        bytes[2],
    ) is Some {
        seq![(hex_digit(bytes[1])->0 * 16 + hex_digit(bytes[2])->0) as u8] + percent_decoded(
            bytes.skip(3),
        )
    } else {
        seq![bytes[0]] + percent_decoded(bytes.skip(1))
    }
}

/// The text of an insertion decodes: it is UTF-8 once each `%` with two digits is one byte.
pub open spec fn insertion_decodes(inserted: Seq<char>) -> bool {
    vstd::utf8::valid_utf8(percent_decoded(vstd::utf8::encode_utf8(inserted)))
}

/// All characters are decimal digits.
pub open spec fn all_digits(s: Seq<char>) -> bool {
    forall|i: int| 0 <= i < s.len() ==> '0' <= #[trigger] s[i] <= '9'
}

/// The number that some decimal digits stand for.
pub open spec fn digits_value(s: Seq<char>) -> int
    decreases s.len(),
{
    if s.len() == 0 {
        0
    } else {
        digits_value(s.drop_last()) * 10 + (s.last() as int - '0' as int)
    }
}

/// The number that a step counts: a sign may stand before its digits.
pub open spec fn count_of(s: Seq<char>) -> Option<int> {
    let signed = s.len() > 0 && (s[0] == '+' || s[0] == '-');
    let digits = if signed {
        s.skip(1)
    } else {
        s
    };
    if digits.len() == 0 || !all_digits(digits) {
        None
    } else if signed && s[0] == '-' {
        Some(-digits_value(digits))
    } else {
        Some(digits_value(digits))
    }
}

/// The insertions among some steps of a delta decode, as far as the steps are followed: a step that
/// is no insertion and counts no number, or more characters than the text has left, ends it.
pub open spec fn steps_decode(steps: Seq<Seq<char>>, left: nat) -> bool
    decreases steps.len(),
{
    if steps.len() == 0 {
        true
    } else {
        let step = steps[0];
        let rest = steps.skip(1);
        if step.len() == 0 {
            steps_decode(rest, left)
        } else if step[0] == '+' {
            insertion_decodes(step.skip(1)) && steps_decode(rest, left)
        } else if step[0] == '-' || step[0] == '=' {
            match count_of(step.skip(1)) {
                Some(n) => if 0 <= n <= left {
                    steps_decode(rest, (left - n) as nat)
                } else {
                    true
                },
                None => true,
            }
        } else {
            true
        }
    }
}

/// The insertions of a delta, the steps of which a tab parts, decode as far as the delta can be
/// followed on a text of the length `len`.
pub open spec fn decodes(len: nat, delta: Seq<char>) -> bool {
    steps_decode(text::split_on(delta, '\t'), len)
}

/// What a step that counts characters does.
pub open spec fn counting_op(c: char) -> DiffOp {
    if c == '-' {
        DiffOp::Delete
    } else {
        DiffOp::Equal
    }
}

/// The text of an insertion, where it decodes.
pub open spec fn inserted_text(inserted: Seq<char>) -> Seq<char> {
    vstd::utf8::decode_utf8(percent_decoded(vstd::utf8::encode_utf8(inserted)))
}

/// Some pieces with one more before them.
pub open spec fn with_first(
    first: (DiffOp, Seq<char>),
    rest: Result<Seq<(DiffOp, Seq<char>)>, DeltaFault>,
) -> Result<Seq<(DiffOp, Seq<char>)>, DeltaFault> {
    match rest {
        Ok(ps) => Ok(seq![first] + ps),
        Err(e) => Err(e),
    }
}

/// The difference that some steps stand for, on what is left of a text. Steps that count must count
/// all of it. A number that no machine integer holds is a fault of its own.
pub open spec fn followed(steps: Seq<Seq<char>>, left: Seq<char>) -> Result<
    Seq<(DiffOp, Seq<char>)>,
    DeltaFault,
>
    decreases steps.len(),
{
    if steps.len() == 0 {
        if left.len() == 0 {
            Ok(Seq::empty())
        } else {
            Err(DeltaFault::InvalidInput)
        }
    } else {
        let step = steps[0];
        let rest = steps.skip(1);
        if step.len() == 0 {
            followed(rest, left)
        } else if step[0] == '+' {
            with_first((DiffOp::Insert, inserted_text(step.skip(1))), followed(rest, left))
        } else if step[0] == '-' || step[0] == '=' {
            match count_of(step.skip(1)) {
                Some(n) => if 0 <= n <= left.len() {
                    with_first(
                        (counting_op(step[0]), left.take(n)),
                        followed(rest, left.skip(n)),
                    )
                } else if isize::MIN <= n <= isize::MAX {
                    Err(DeltaFault::InvalidInput)
                } else {
                    Err(DeltaFault::Utf8Error)
                },
                None => Err(DeltaFault::Utf8Error),
            }
        } else {
            Err(DeltaFault::InvalidInput)
        }
    }
}

/// The difference that a delta stands for, where it is applied to the text `old`.
pub open spec fn delta_pieces(old: Seq<char>, delta: Seq<char>) -> Result<
    Seq<(DiffOp, Seq<char>)>,
    DeltaFault,
> {
    followed(text::split_on(delta, '\t'), old)
}

/// A byte that is written with `%`: a control, one of a few signs, or one outside ASCII.
pub open spec fn is_escaped(b: u8) -> bool {
    ||| b < 0x20
    ||| b >= 0x7f
    ||| b == 0x22 || b == 0x25 || b == 0x3c || b == 0x3e || b == 0x60
    ||| 0x5b <= b <= 0x5e
    ||| 0x7b <= b <= 0x7d
}

/// An upper-case hexadecimal digit.
pub open spec fn upper_digit(d: nat) -> char {
    if d < 10 {
        (('0' as nat) + d) as char
    } else {
        (('A' as nat) + (d - 10)) as char
    }
}

/// A byte as it is written in an insertion.
pub open spec fn written_byte(b: u8) -> Seq<char> {
    if is_escaped(b) {
        seq!['%', upper_digit((b / 16) as nat), upper_digit((b % 16) as nat)]
    } else {
        seq![b as char]
    }
}

/// Some bytes as they are written in an insertion.
pub open spec fn percent_encoded(bytes: Seq<u8>) -> Seq<char>
    decreases bytes.len(),
{
    if bytes.len() == 0 {
        Seq::empty()
    } else {
        written_byte(bytes[0]) + percent_encoded(bytes.skip(1))
    }
}

/// The step of a delta that stands for a piece.
pub open spec fn step_of(p: (DiffOp, Seq<char>)) -> Seq<char> {
    match p.0 {
        DiffOp::Insert => seq!['+'] + percent_encoded(vstd::utf8::encode_utf8(p.1)),
        DiffOp::Delete => seq!['-'] + text::decimal(p.1.len()),
        DiffOp::Equal => seq!['='] + text::decimal(p.1.len()),
    }
}

/// The delta of a difference: its steps, parted by tabs.
pub open spec fn delta_text(ps: Seq<(DiffOp, Seq<char>)>) -> Seq<char>
    decreases ps.len(),
{
    if ps.len() == 0 {
        Seq::empty()
    } else if ps.len() == 1 {
        step_of(ps[0])
    } else {
        delta_text(ps.drop_last()).push('\t') + step_of(ps.last())
    }
}

fn hex_digit_value(b: u8) -> (v: Option<u8>)
    ensures
        v == hex_digit(b),
        v matches Some(x) ==> x < 16,
{
    if 0x30 <= b && b <= 0x39 {
        Some(b - 0x30)
    } else if 0x41 <= b && b <= 0x46 {
        Some(b - 0x37)
    } else if 0x61 <= b && b <= 0x66 {
        Some(b - 0x57)
    } else {
        None
    }
}

fn percent_decode(bytes: &[u8]) -> (decoded: Vec<u8>)
    ensures
        decoded@ == percent_decoded(bytes@),
{
    let mut decoded: Vec<u8> = Vec::new();
    let mut i: usize = 0;
    assert(bytes@.skip(0) =~= bytes@);
    assert(decoded@ + percent_decoded(bytes@) =~= percent_decoded(bytes@));
    while i < bytes.len()
        invariant
            i <= bytes.len(),
            decoded@ + percent_decoded(bytes@.skip(i as int)) == percent_decoded(bytes@),
        decreases bytes.len() - i,
    {
        let ghost rest = bytes@.skip(i as int);
        let ghost before = decoded@;
        assert(rest[0] == bytes@[i as int]);
        assert(rest.skip(1) =~= bytes@.skip(i + 1));
        if bytes[i] == 0x25 && bytes.len() - i >= 3 {
            assert(rest[1] == bytes@[i + 1]);
            assert(rest[2] == bytes@[i + 2]);
            assert(rest.skip(3) =~= bytes@.skip(i + 3));
            match (hex_digit_value(bytes[i + 1]), hex_digit_value(bytes[i + 2])) {
                (Some(h), Some(l)) => {
                    decoded.push(h * 16 + l);
                    i += 3;
                    assert(decoded@ + percent_decoded(bytes@.skip(i as int)) =~= before
                        + percent_decoded(rest));
                },
                _ => {
                    decoded.push(bytes[i]);
                    i += 1;
                    assert(decoded@ + percent_decoded(bytes@.skip(i as int)) =~= before
                        + percent_decoded(rest));
                },
            }
        } else {
            decoded.push(bytes[i]);
            i += 1;
            assert(decoded@ + percent_decoded(bytes@.skip(i as int)) =~= before + percent_decoded(
                rest,
            ));
        }
    }
    assert(decoded@ + percent_decoded(bytes@.skip(i as int)) =~= decoded@);
    decoded
}

/// What a step counts, where it is not more than `left`.
fn count_up_to(s: &Vec<char>, from: usize, left: usize) -> (n: Option<usize>)
    requires
        from <= s.len(),
    ensures
        match n {
            Some(n) => count_of(s@.skip(from as int)) == Some(n as int) && n <= left,
            None => count_of(s@.skip(from as int)) matches Some(n) ==> n < 0 || n > left,
        },
{
    let ghost part = s@.skip(from as int);
    let signed = from < s.len() && (s[from] == '+' || s[from] == '-');
    let negative = signed && s[from] == '-';
    let start: usize = if signed {
        from + 1
    } else {
        from
    };
    let ghost digits = s@.skip(start as int);
    assert(part.len() > 0 ==> part[0] == s@[from as int]);
    assert(signed ==> part.skip(1) =~= digits);
    assert(!signed ==> part =~= digits);
    if start == s.len() {
        return None;
    }
    let mut n: usize = 0;
    let mut i: usize = start;
    while i < s.len()
        invariant
            start <= i <= s.len(),
            part == s@.skip(from as int),
            signed == (part.len() > 0 && (part[0] == '+' || part[0] == '-')),
            digits == if signed {
                part.skip(1)
            } else {
                part
            },
            digits == s@.skip(start as int),
            all_digits(digits.take(i - start)),
            n == digits_value(digits.take(i - start)),
            n <= left,
        decreases s.len() - i,
    {
        let c = s[i];
        assert(digits[i - start] == c);
        if !('0' <= c && c <= '9') {
            assert(!all_digits(digits));
            return None;
        }
        let value: usize = (c as u32 - '0' as u32) as usize;
        assert(digits.take(i - start + 1).drop_last() =~= digits.take(i - start));
        assert(digits.take(i - start + 1).last() == c);
        assert forall|j: int| 0 <= j < i - start + 1 implies '0' <= #[trigger] digits.take(
            i - start + 1,
        )[j] <= '9' by {
            if j < i - start {
                assert(digits.take(i - start)[j] == digits[j]);
            }
        }
        if n > left / 10 || left - n * 10 < value {
            proof {
                assert(digits_value(digits.take(i - start + 1)) > left);
                if all_digits(digits) {
                    lemma_digits_grow(digits, i - start + 1);
                }
            }
            return None;
        }
        n = n * 10 + value;
        i += 1;
    }
    assert(digits.take(i - start) =~= digits);
    if negative && n > 0 {
        return None;
    }
    Some(n)
}

proof fn lemma_digits_grow(digits: Seq<char>, n: int)
    requires
        all_digits(digits),
        0 <= n <= digits.len(),
    ensures
        digits_value(digits.take(n)) <= digits_value(digits),
        digits_value(digits) >= 0,
    decreases digits.len(),
{
    if digits.len() > 0 {
        let front = digits.drop_last();
        assert('0' <= digits[digits.len() - 1] <= '9');
        assert forall|i: int| 0 <= i < front.len() implies '0' <= #[trigger] front[i] <= '9' by {
            assert(front[i] == digits[i]);
        }
        if n == digits.len() {
            assert(digits.take(n) =~= digits);
            lemma_digits_grow(front, front.len() as int);
        } else {
            assert(front.take(n) =~= digits.take(n));
            lemma_digits_grow(front, n);
        }
    }
}

/// Whether the insertions of a delta decode, as far as the delta can be followed on a text.
pub fn delta_decodes(old: &str, delta: &str) -> (ok: bool)
    ensures
        ok == decodes(old@.len(), delta@),
{
    let steps = text::split_at_char(delta, '\t');
    let ghost all = text::contents(steps@);
    let mut left: usize = text::chars_of(old).len();
    let mut i: usize = 0;
    assert(all.skip(0) =~= all);
    while i < steps.len()
        invariant
            i <= steps.len(),
            all == text::contents(steps@),
            all == text::split_on(delta@, '\t'),
            decodes(old@.len(), delta@) == steps_decode(all.skip(i as int), left as nat),
        decreases steps.len() - i,
    {
        let ghost here = all.skip(i as int);
        assert(here[0] == steps@[i as int]@);
        assert(here.skip(1) =~= all.skip(i + 1));
        let step = text::chars_of(steps[i].as_str());
        assert(step@ == here[0]);
        if step.len() > 0 {
            if step[0] == '+' {
                let inserted = text::string_of(&step, 1, step.len());
                assert(inserted@ =~= step@.skip(1));
                let decoded = percent_decode(inserted.as_str().as_bytes());
                if !is_utf8(&decoded) {
                    return false;
                }
            } else if step[0] == '-' || step[0] == '=' {
                match count_up_to(&step, 1, left) {
                    Some(n) => left -= n,
                    None => return true,
                }
            } else {
                return true;
            }
        }
        i += 1;
    }
    true
}

/// The text that some pieces lead to.
pub fn text_after(ps: &Vec<DiffPiece>) -> (s: String)
    ensures
        s@ == new_text(pieces(ps@)),
{
    let mut s: String = String::new();
    let mut i: usize = 0;
    while i < ps.len()
        invariant
            i <= ps.len(),
            s@ == new_text(pieces(ps@).take(i as int)),
        decreases ps.len() - i,
    {
        let ghost before = s@;
        assert(pieces(ps@).take(i + 1).drop_last() =~= pieces(ps@).take(i as int));
        assert(pieces(ps@)[i as int] == ps@[i as int]@);
        if ps[i].op != DiffOp::Delete {
            let kept = text::string_of(&ps[i].text, 0, ps[i].text.len());
            assert(kept@ =~= ps@[i as int].text@);
            s.append(kept.as_str());
        }
        i += 1;
    }
    assert(pieces(ps@).take(ps@.len() as int) =~= pieces(ps@));
    s
}

/// What a delta makes of a text.
pub open spec fn delta_result(old: Seq<char>, delta: Seq<char>) -> Result<Seq<char>, DeltaFault> {
    match delta_pieces(old, delta) {
        Ok(ps) => Ok(new_text(ps)),
        Err(e) => Err(e),
    }
}

/// The text that comes of applying a delta, and why none does.
pub open spec fn applied(r: Result<String, DeltaFault>) -> Result<Seq<char>, DeltaFault> {
    match r {
        Ok(s) => Ok(s@),
        Err(e) => Err(e),
    }
}

/// Applies a delta to a text.
pub fn apply_delta(old: &str, delta: &str) -> (r: Result<String, DeltaFault>)
    requires
        decodes(old@.len(), delta@),
    ensures
        applied(r) == delta_result(old@, delta@),
{
    match diff_from_delta(old, delta) {
        Ok(ps) => Ok(text_after(&ps)),
        Err(e) => Err(e),
    }
}

/// A delta that makes `new` of `old`.
pub open spec fn leads_to(delta: Seq<char>, old: Seq<char>, new: Seq<char>) -> bool {
    decodes(old.len(), delta) && (delta_result(old, delta) matches Ok(made) && made == new)
}

proof fn lemma_percent_round_trip(bytes: Seq<u8>)
    ensures
        vstd::utf8::is_ascii_chars(percent_encoded(bytes)),
        percent_decoded(vstd::utf8::encode_utf8(percent_encoded(bytes))) == bytes,
        !percent_encoded(bytes).contains('\t'),
    decreases bytes.len(),
{
    let encoded = percent_encoded(bytes);
    if bytes.len() == 0 {
        assert(percent_decoded(vstd::utf8::encode_utf8(encoded)) =~= bytes);
    } else {
        let b = bytes[0];
        let first = written_byte(b);
        let rest = percent_encoded(bytes.skip(1));
        lemma_percent_round_trip(bytes.skip(1));
        assert(vstd::utf8::is_ascii_chars(encoded)) by {
            assert forall|i: int| 0 <= i < encoded.len() implies '\0' <= #[trigger] encoded[i]
                <= '\u{7f}' by {
                if i >= first.len() {
                    assert(encoded[i] == rest[i - first.len()]);
                }
            }
        }
        vstd::utf8::is_ascii_chars_encode_utf8(encoded);
        vstd::utf8::is_ascii_chars_encode_utf8(rest);
        let raw = vstd::utf8::encode_utf8(encoded);
        let raw_rest = vstd::utf8::encode_utf8(rest);
        let n = first.len() as int;
        assert(raw.skip(n) =~= raw_rest) by {
            assert forall|i: int| 0 <= i < raw_rest.len() implies raw.skip(n)[i] == raw_rest[i] by {
                assert(encoded[i + n] == rest[i]);
                assert(raw[i + n] == encoded[i + n] as u8);
                assert(raw_rest[i] == rest[i] as u8);
            }
        }
        assert(raw[0] == encoded[0] as u8);
        if is_escaped(b) {
            assert(raw[1] == encoded[1] as u8);
            assert(raw[2] == encoded[2] as u8);
            assert(encoded[1] == upper_digit((b / 16) as nat));
            assert(encoded[2] == upper_digit((b % 16) as nat));
            assert(hex_digit(raw[1]) == Some((b / 16) as u8));
            assert(hex_digit(raw[2]) == Some((b % 16) as u8));
        } else {
            assert(raw[0] == b);
        }
        assert(percent_decoded(raw) =~= bytes);
        assert(!encoded.contains('\t')) by {
            if encoded.contains('\t') {
                let i = choose|i: int| 0 <= i < encoded.len() && encoded[i] == '\t';
                if i >= n {
                    assert(rest[i - n] == '\t');
                }
            }
        }
    }
}

proof fn lemma_decimal_counts(n: nat)
    ensures
        text::decimal(n).len() > 0,
        all_digits(text::decimal(n)),
        digits_value(text::decimal(n)) == n,
    decreases n,
{
    let s = text::decimal(n);
    if n < 10 {
        assert(s.drop_last() =~= Seq::empty());
        assert(digits_value(s.drop_last()) == 0);
    } else {
        lemma_decimal_counts(n / 10);
        assert(s.drop_last() =~= text::decimal(n / 10));
        assert forall|i: int| 0 <= i < s.len() implies '0' <= #[trigger] s[i] <= '9' by {
            if i < s.len() - 1 {
                assert(s[i] == text::decimal(n / 10)[i]);
            }
        }
    }
}

proof fn lemma_step(p: (DiffOp, Seq<char>))
    ensures
        step_of(p).len() > 0,
        !step_of(p).contains('\t'),
        p.0 == DiffOp::Insert ==> step_of(p)[0] == '+' && insertion_decodes(step_of(p).skip(1))
            && inserted_text(step_of(p).skip(1)) == p.1,
        p.0 == DiffOp::Delete ==> step_of(p)[0] == '-',
        p.0 == DiffOp::Equal ==> step_of(p)[0] == '=',
        p.0 != DiffOp::Insert ==> count_of(step_of(p).skip(1)) == Some(p.1.len() as int),
{
    let step = step_of(p);
    if p.0 == DiffOp::Insert {
        let bytes = vstd::utf8::encode_utf8(p.1);
        lemma_percent_round_trip(bytes);
        vstd::utf8::encode_utf8_valid_utf8(p.1);
        vstd::utf8::encode_utf8_decode_utf8(p.1);
        assert(step.skip(1) =~= percent_encoded(bytes));
    } else {
        lemma_decimal_counts(p.1.len());
        let digits = text::decimal(p.1.len());
        assert(step.skip(1) =~= digits);
        assert('0' <= digits[0] <= '9');
        assert forall|i: int| 0 <= i < step.len() implies step[i] != '\t' by {
            if i > 0 {
                assert(step[i] == digits[i - 1]);
            }
        }
    }
    if step.contains('\t') {
        let i = choose|i: int| 0 <= i < step.len() && step[i] == '\t';
        if p.0 == DiffOp::Insert && i > 0 {
            assert(percent_encoded(vstd::utf8::encode_utf8(p.1))[i - 1] == '\t');
        }
    }
}

/// The steps of some pieces.
spec fn steps_of(ps: Seq<(DiffOp, Seq<char>)>) -> Seq<Seq<char>> {
    ps.map_values(|p: (DiffOp, Seq<char>)| step_of(p))
}

proof fn lemma_steps_are_parted(ps: Seq<(DiffOp, Seq<char>)>)
    requires
        ps.len() > 0,
    ensures
        text::split_on(delta_text(ps), '\t') == steps_of(ps),
    decreases ps.len(),
{
    lemma_step(ps.last());
    if ps.len() == 1 {
        text::lemma_split_appends(Seq::empty(), step_of(ps[0]), '\t');
        assert(Seq::<char>::empty() + step_of(ps[0]) =~= step_of(ps[0]));
        assert(text::split_on(delta_text(ps), '\t') =~= steps_of(ps));
    } else {
        let front = ps.drop_last();
        lemma_steps_are_parted(front);
        let begun = delta_text(front).push('\t');
        assert(begun.drop_last() =~= delta_text(front));
        text::lemma_split_appends(begun, step_of(ps.last()), '\t');
        assert(text::split_on(delta_text(ps), '\t') =~= steps_of(ps));
    }
}

proof fn lemma_old_text_first(ps: Seq<(DiffOp, Seq<char>)>)
    requires
        ps.len() > 0,
    ensures
        old_text(ps) == (if ps[0].0 == DiffOp::Insert {
            Seq::empty()
        } else {
            ps[0].1
        }) + old_text(ps.skip(1)),
    decreases ps.len(),
{
    if ps.len() == 1 {
        assert(ps.drop_last() =~= Seq::empty());
        assert(ps.skip(1) =~= Seq::empty());
        assert(old_text(ps.drop_last()) =~= Seq::empty());
        assert(old_text(ps) =~= (if ps[0].0 == DiffOp::Insert {
            Seq::empty()
        } else {
            ps[0].1
        }) + old_text(ps.skip(1)));
    } else {
        lemma_old_text_first(ps.drop_last());
        assert(ps.drop_last().skip(1) =~= ps.skip(1).drop_last());
        assert(ps.skip(1).last() == ps.last());
        assert(old_text(ps) =~= (if ps[0].0 == DiffOp::Insert {
            Seq::empty()
        } else {
            ps[0].1
        }) + old_text(ps.skip(1)));
    }
}

proof fn lemma_steps_give_back(ps: Seq<(DiffOp, Seq<char>)>)
    ensures
        followed(steps_of(ps), old_text(ps)) == Ok::<Seq<(DiffOp, Seq<char>)>, DeltaFault>(ps),
        steps_decode(steps_of(ps), old_text(ps).len()),
    decreases ps.len(),
{
    let left = old_text(ps);
    if ps.len() == 0 {
        assert(ps =~= Seq::empty());
    } else {
        let rest = ps.skip(1);
        lemma_step(ps[0]);
        lemma_old_text_first(ps);
        lemma_steps_give_back(rest);
        assert(steps_of(ps)[0] == step_of(ps[0]));
        assert(steps_of(ps).skip(1) =~= steps_of(rest));
        assert(seq![ps[0]] + rest =~= ps);
        if ps[0].0 == DiffOp::Insert {
            assert(left =~= old_text(rest));
        } else {
            let n = ps[0].1.len() as int;
            assert(left.take(n) =~= ps[0].1);
            assert(left.skip(n) =~= old_text(rest));
        }
    }
}

/// A delta, applied to the text that its difference starts from, gives the difference back, and all
/// its insertions decode.
pub proof fn law_delta_gives_its_difference_back(ps: Seq<(DiffOp, Seq<char>)>)
    ensures
        delta_pieces(old_text(ps), delta_text(ps)) == Ok::<Seq<(DiffOp, Seq<char>)>, DeltaFault>(
            ps,
        ),
        decodes(old_text(ps).len(), delta_text(ps)),
{
    if ps.len() == 0 {
        let steps = text::split_on(delta_text(ps), '\t');
        assert(steps.len() == 1 && steps[0].len() == 0);
        assert(steps.skip(1) =~= Seq::empty());
        reveal_with_fuel(followed, 2);
        reveal_with_fuel(steps_decode, 2);
        assert(ps =~= Seq::empty());
    } else {
        lemma_steps_are_parted(ps);
        lemma_steps_give_back(ps);
    }
}

proof fn lemma_texts_of_both(a: Seq<(DiffOp, Seq<char>)>, b: Seq<(DiffOp, Seq<char>)>)
    ensures
        old_text(a + b) == old_text(a) + old_text(b),
        new_text(a + b) == new_text(a) + new_text(b),
    decreases b.len(),
{
    if b.len() == 0 {
        assert(a + b =~= a);
        assert(old_text(a) =~= old_text(a) + old_text(b));
        assert(new_text(a) =~= new_text(a) + new_text(b));
    } else {
        lemma_texts_of_both(a, b.drop_last());
        assert((a + b).drop_last() =~= a + b.drop_last());
        assert((a + b).last() == b.last());
        assert(old_text(a + b) =~= old_text(a) + old_text(b));
        assert(new_text(a + b) =~= new_text(a) + new_text(b));
    }
}

fn push_piece(ps: &mut Vec<DiffPiece>, op: DiffOp, text: Vec<char>)
    ensures
        pieces(final(ps)@) == pieces(old(ps)@) + seq![(op, text@)],
        old_text(pieces(final(ps)@)) == if op == DiffOp::Insert {
            old_text(pieces(old(ps)@))
        } else {
            old_text(pieces(old(ps)@)) + text@
        },
        new_text(pieces(final(ps)@)) == if op == DiffOp::Delete {
            new_text(pieces(old(ps)@))
        } else {
            new_text(pieces(old(ps)@)) + text@
        },
{
    let ghost before = pieces(ps@);
    ps.push(DiffPiece { op, text });
    assert(pieces(ps@) =~= before + seq![(op, text@)]);
    assert(pieces(ps@).drop_last() =~= before);
}

/// The number of characters with which two texts begin alike.
pub open spec fn alike_before(a: Seq<char>, b: Seq<char>) -> nat
    decreases a.len(),
{
    if a.len() > 0 && b.len() > 0 && a[0] == b[0] {
        alike_before(a.skip(1), b.skip(1)) + 1
    } else {
        0
    }
}

/// The number of characters with which two texts end alike.
pub open spec fn alike_behind(a: Seq<char>, b: Seq<char>) -> nat
    decreases a.len(),
{
    if a.len() > 0 && b.len() > 0 && a.last() == b.last() {
        alike_behind(a.drop_last(), b.drop_last()) + 1
    } else {
        0
    }
}

/// The number of characters with which two texts end alike, behind those with which they begin
/// alike.
pub open spec fn alike_after(a: Seq<char>, b: Seq<char>) -> nat {
    let start = alike_before(a, b) as int;
    alike_behind(a.skip(start), b.skip(start))
}

/// A text that is kept, as a difference; there is no piece for the empty text.
pub open spec fn kept(s: Seq<char>) -> Seq<(DiffOp, Seq<char>)> {
    if s.len() == 0 {
        Seq::empty()
    } else {
        seq![(DiffOp::Equal, s)]
    }
}

/// A difference between texts that neither begin nor end alike: the one text deleted and the other
/// inserted, unless they can be searched for what they share.
pub open spec fn parts_differ(
    ps: Seq<(DiffOp, Seq<char>)>,
    old: Seq<char>,
    new: Seq<char>,
) -> bool {
    &&& old_text(ps) == old
    &&& new_text(ps) == new
    &&& !searchable(old, new) ==> ps == seq![(DiffOp::Delete, old), (DiffOp::Insert, new)]
}

/// A difference between two texts: what they begin and end with alike is kept.
pub open spec fn texts_differ(
    ps: Seq<(DiffOp, Seq<char>)>,
    old: Seq<char>,
    new: Seq<char>,
) -> bool {
    let start = alike_before(old, new) as int;
    let end = alike_after(old, new) as int;
    exists|middle: Seq<(DiffOp, Seq<char>)>|
        ps == kept(old.take(start)) + middle + kept(old.skip(old.len() - end))
            && #[trigger] parts_differ(
            middle,
            old.subrange(start, old.len() - end),
            new.subrange(start, new.len() - end),
        )
}

proof fn lemma_alike_before(a: Seq<char>, b: Seq<char>)
    ensures
        alike_before(a, b) <= a.len(),
        alike_before(a, b) <= b.len(),
        a.take(alike_before(a, b) as int) == b.take(alike_before(a, b) as int),
    decreases a.len(),
{
    let n = alike_before(a, b) as int;
    if n > 0 {
        lemma_alike_before(a.skip(1), b.skip(1));
        assert(a.take(n) =~= seq![a[0]] + a.skip(1).take(n - 1));
        assert(b.take(n) =~= seq![b[0]] + b.skip(1).take(n - 1));
    } else {
        assert(a.take(n) =~= b.take(n));
    }
}

proof fn lemma_alike_behind(a: Seq<char>, b: Seq<char>)
    ensures
        alike_behind(a, b) <= a.len(),
        alike_behind(a, b) <= b.len(),
        a.skip(a.len() - alike_behind(a, b)) == b.skip(b.len() - alike_behind(a, b)),
    decreases a.len(),
{
    let n = alike_behind(a, b) as int;
    if n > 0 {
        lemma_alike_behind(a.drop_last(), b.drop_last());
        let (front_a, front_b) = (a.drop_last(), b.drop_last());
        assert(a.skip(a.len() - n) =~= front_a.skip(front_a.len() - (n - 1)).push(a.last()));
        assert(b.skip(b.len() - n) =~= front_b.skip(front_b.len() - (n - 1)).push(b.last()));
    } else {
        assert(a.skip(a.len() - n) =~= b.skip(b.len() - n));
    }
}

/// The texts that a difference leads between are the two texts.
proof fn lemma_texts_differ(ps: Seq<(DiffOp, Seq<char>)>, old: Seq<char>, new: Seq<char>)
    requires
        texts_differ(ps, old, new),
    ensures
        old_text(ps) == old,
        new_text(ps) == new,
{
    let start = alike_before(old, new) as int;
    let end = alike_after(old, new) as int;
    lemma_alike_before(old, new);
    lemma_alike_behind(old.skip(start), new.skip(start));
    let front = kept(old.take(start));
    let back = kept(old.skip(old.len() - end));
    let middle = choose|middle: Seq<(DiffOp, Seq<char>)>|
        ps == front + middle + back && #[trigger] parts_differ(
            middle,
            old.subrange(start, old.len() - end),
            new.subrange(start, new.len() - end),
        );
    lemma_texts_of_both(front, middle);
    lemma_texts_of_both(front + middle, back);
    lemma_kept(old.take(start));
    lemma_kept(old.skip(old.len() - end));
    assert(old.skip(old.len() - end) =~= old.skip(start).skip(old.len() - start - end));
    assert(new.skip(new.len() - end) =~= new.skip(start).skip(new.len() - start - end));
    assert(old_text(ps) =~= old);
    assert(new =~= new.take(start) + new.subrange(start, new.len() - end) + new.skip(
        new.len() - end,
    ));
    assert(new_text(ps) =~= new);
}

proof fn lemma_kept(s: Seq<char>)
    ensures
        old_text(kept(s)) == s,
        new_text(kept(s)) == s,
{
    let ps = kept(s);
    reveal_with_fuel(old_text, 2);
    reveal_with_fuel(new_text, 2);
    if s.len() > 0 {
        assert(ps.drop_last() =~= Seq::empty());
    }
    assert(old_text(ps) =~= s);
    assert(new_text(ps) =~= s);
}

/// The number of characters with which two texts begin alike.
fn common_start(a: &Vec<char>, b: &Vec<char>) -> (n: usize)
    ensures
        n == alike_before(a@, b@),
{
    let mut n: usize = 0;
    assert(a@.skip(0) =~= a@);
    assert(b@.skip(0) =~= b@);
    while n < a.len() && n < b.len() && a[n] == b[n]
        invariant
            n <= a.len() && n <= b.len(),
            alike_before(a@, b@) == n + alike_before(a@.skip(n as int), b@.skip(n as int)),
        decreases a.len() - n,
    {
        assert(a@.skip(n as int).skip(1) =~= a@.skip(n + 1));
        assert(b@.skip(n as int).skip(1) =~= b@.skip(n + 1));
        n += 1;
    }
    n
}

/// The number of characters with which two texts end alike, behind the first `start` of each.
fn common_end(a: &Vec<char>, b: &Vec<char>, start: usize) -> (n: usize)
    requires
        start <= a.len() && start <= b.len(),
    ensures
        n == alike_behind(a@.skip(start as int), b@.skip(start as int)),
{
    let ghost at = a@.skip(start as int);
    let ghost bt = b@.skip(start as int);
    let mut n: usize = 0;
    assert(at.take(at.len() as int) =~= at);
    assert(bt.take(bt.len() as int) =~= bt);
    while n < a.len() - start && n < b.len() - start && a[a.len() - n - 1] == b[b.len() - n - 1]
        invariant
            start <= a.len() && start <= b.len(),
            n <= a.len() - start && n <= b.len() - start,
            at == a@.skip(start as int),
            bt == b@.skip(start as int),
            alike_behind(at, bt) == n + alike_behind(at.take(at.len() - n), bt.take(bt.len() - n)),
        decreases a.len() - n,
    {
        assert(at.take(at.len() - n).drop_last() =~= at.take(at.len() - n - 1));
        assert(bt.take(bt.len() - n).drop_last() =~= bt.take(bt.len() - n - 1));
        n += 1;
    }
    n
}

/// A part of a text.
fn part(chars: &Vec<char>, from: usize, to: usize) -> (p: Vec<char>)
    requires
        from <= to <= chars.len(),
    ensures
        p@ == chars@.subrange(from as int, to as int),
{
    let mut p: Vec<char> = Vec::new();
    let mut i: usize = from;
    while i < to
        invariant
            from <= i <= to <= chars.len(),
            p@ == chars@.subrange(from as int, i as int),
        decreases to - i,
    {
        p.push(chars[i]);
        i += 1;
        assert(p@ =~= chars@.subrange(from as int, i as int));
    }
    assert(p@ =~= chars@.subrange(from as int, to as int));
    p
}

/// Whether a character stands at two places of a text.
fn occurs_twice(s: &Vec<char>, c: char) -> (twice: bool)
    ensures
        twice == stands_twice(s@, c),
{
    let mut first: Option<usize> = None;
    let mut i: usize = 0;
    while i < s.len()
        invariant
            i <= s.len(),
            match first {
                Some(f) => f < i && s@[f as int] == c && forall|k: int|
                    0 <= k < i && k != f ==> s@[k] != c,
                None => forall|k: int| 0 <= k < i ==> s@[k] != c,
            },
        decreases s.len() - i,
    {
        if s[i] == c {
            match first {
                Some(f) => {
                    assert(s@[f as int] == c && s@[i as int] == c);
                    return true;
                },
                None => {
                    first = Some(i);
                },
            }
        }
        i += 1;
    }
    false
}

/// Whether two texts can be searched for a difference.
fn can_search(old: &Vec<char>, new: &Vec<char>) -> (can: bool)
    ensures
        can == searchable(old@, new@),
{
    let (short, long) = if old.len() <= new.len() {
        (old, new)
    } else {
        (new, old)
    };
    if short.len() > LINE_MODE_LENGTH {
        return false;
    }
    let mut i: usize = 0;
    while i < short.len()
        invariant
            i <= short.len(),
            short.len() <= LINE_MODE_LENGTH,
            short == old && long == new || short == new && long == old,
            forall|k: int|
                0 <= k < i ==> !(stands_twice(short@, #[trigger] short@[k]) && stands_twice(
                    long@,
                    short@[k],
                )),
        decreases short.len() - i,
    {
        if occurs_twice(short, short[i]) && occurs_twice(long, short[i]) {
            return false;
        }
        i += 1;
    }
    assert forall|c: char| !(stands_twice(short@, c) && #[trigger] stands_twice(long@, c)) by {
        if stands_twice(short@, c) {
            let (k, j) = choose|k: int, j: int|
                0 <= k < j < short@.len() && #[trigger] short@[k] == c && #[trigger] short@[j] == c;
            assert(short@[k] == c);
        }
    }
    true
}

/// A difference between two texts that begin and end differently: what the search finds, where they
/// can be searched, and else one text deleted and the other inserted, as when the time for a search
/// runs out.
fn middle_difference(old: Vec<char>, new: Vec<char>) -> (r: Result<Vec<DiffPiece>, DeltaFault>)
    ensures
        r matches Ok(ps) && parts_differ(pieces(ps@), old@, new@),
{
    if can_search(&old, &new) {
        let old_part = text::string_of(&old, 0, old.len());
        let new_part = text::string_of(&new, 0, new.len());
        assert(old_part@ =~= old@);
        assert(new_part@ =~= new@);
        return diff_main(old_part.as_str(), new_part.as_str());
    }
    let mut ps: Vec<DiffPiece> = Vec::new();
    assert(pieces(ps@) =~= Seq::empty());
    let ghost (o, n) = (old@, new@);
    push_piece(&mut ps, DiffOp::Delete, old);
    push_piece(&mut ps, DiffOp::Insert, new);
    assert(old_text(pieces(ps@)) =~= o);
    assert(new_text(pieces(ps@)) =~= n);
    assert(pieces(ps@) =~= seq![(DiffOp::Delete, o), (DiffOp::Insert, n)]);
    Ok(ps)
}

/// A difference between two texts. What they begin and end with alike is kept, and what stands
/// between is searched for what can be kept of it, where it can be searched.
pub fn difference(old: &str, new: &str) -> (r: Result<Vec<DiffPiece>, DeltaFault>)
    ensures
        r matches Ok(ps) && texts_differ(pieces(ps@), old@, new@),
{
    let a = text::chars_of(old);
    let b = text::chars_of(new);
    proof {
        lemma_alike_before(a@, b@);
    }
    let start = common_start(&a, &b);
    proof {
        lemma_alike_behind(a@.skip(start as int), b@.skip(start as int));
    }
    let end = common_end(&a, &b, start);
    let mut middle = match middle_difference(
        part(&a, start, a.len() - end),
        part(&b, start, b.len() - end),
    ) {
        Ok(ps) => ps,
        Err(e) => return Err(e),
    };
    let ghost between = pieces(middle@);
    let mut ps: Vec<DiffPiece> = Vec::new();
    if start > 0 {
        push_piece(&mut ps, DiffOp::Equal, part(&a, 0, start));
    }
    assert(pieces(ps@) =~= kept(a@.take(start as int)));
    let ghost front = pieces(ps@);
    ps.append(&mut middle);
    assert(pieces(ps@) =~= front + between);
    if end > 0 {
        push_piece(&mut ps, DiffOp::Equal, part(&a, a.len() - end, a.len()));
        assert(a@.subrange(a.len() - end, a.len() as int) =~= a@.skip(a.len() - end));
    }
    assert(pieces(ps@) =~= kept(old@.take(start as int)) + between + kept(
        old@.skip(old@.len() - end),
    ));
    assert(parts_differ(
        between,
        old@.subrange(start as int, old@.len() - end),
        new@.subrange(start as int, new@.len() - end),
    ));
    assert(start == alike_before(old@, new@));
    assert(end == alike_after(old@, new@));
    assert(texts_differ(pieces(ps@), old@, new@));
    Ok(ps)
}

/// The delta of a difference between two texts.
pub open spec fn is_delta(delta: Seq<char>, old: Seq<char>, new: Seq<char>) -> bool {
    exists|ps: Seq<(DiffOp, Seq<char>)>| #[trigger]
        texts_differ(ps, old, new) && delta == delta_text(ps)
}

/// Makes a delta that leads from one text to another.
pub fn make_delta(old: &str, new: &str) -> (r: Result<String, DeltaFault>)
    ensures
        r matches Ok(delta) && is_delta(delta@, old@, new@) && leads_to(delta@, old@, new@),
{
    match difference(old, new) {
        Ok(ps) => {
            proof {
                lemma_texts_differ(pieces(ps@), old@, new@);
                law_delta_gives_its_difference_back(pieces(ps@));
            }
            diff_to_delta(&ps)
        },
        Err(e) => Err(e),
    }
}

/// Every delta of a difference leads from the one text to the other.
pub proof fn law_deltas_lead_to_the_new_text(delta: Seq<char>, old: Seq<char>, new: Seq<char>)
    requires
        is_delta(delta, old, new),
    ensures
        leads_to(delta, old, new),
{
    let ps = choose|ps: Seq<(DiffOp, Seq<char>)>| #[trigger]
        texts_differ(ps, old, new) && delta == delta_text(ps);
    lemma_texts_differ(ps, old, new);
    law_delta_gives_its_difference_back(ps);
}

/// A difference keeps what two texts begin with alike: its first piece is kept and holds all of it.
pub proof fn law_a_difference_keeps_the_beginning(
    ps: Seq<(DiffOp, Seq<char>)>,
    old: Seq<char>,
    new: Seq<char>,
    n: int,
)
    requires
        texts_differ(ps, old, new),
        0 < n <= old.len(),
        n <= new.len(),
        old.take(n) == new.take(n),
    ensures
        ps.len() > 0,
        ps[0].0 == DiffOp::Equal,
        ps[0].1.len() >= n,
        ps[0].1.take(n) == old.take(n),
        old_text(ps) == old,
        new_text(ps) == new,
{
    lemma_texts_differ(ps, old, new);
    lemma_alike_at_least(old, new, n);
    lemma_alike_before(old, new);
    let start = alike_before(old, new) as int;
    let front = kept(old.take(start));
    assert(front.len() == 1);
    assert(ps[0] == front[0]);
    assert(old.take(start).take(n) =~= old.take(n));
}

proof fn lemma_alike_at_least(a: Seq<char>, b: Seq<char>, n: int)
    requires
        0 <= n <= a.len(),
        n <= b.len(),
        a.take(n) == b.take(n),
    ensures
        alike_before(a, b) >= n,
    decreases n,
{
    if n > 0 {
        assert(a[0] == a.take(n)[0]);
        assert(b[0] == b.take(n)[0]);
        assert(a.skip(1).take(n - 1) =~= a.take(n).skip(1));
        assert(b.skip(1).take(n - 1) =~= b.take(n).skip(1));
        lemma_alike_at_least(a.skip(1), b.skip(1), n - 1);
    }
}

/// The texts of a difference are those of its pieces, in order: what is kept belongs to both, what
/// is deleted to the old text and what is inserted to the new one.
pub proof fn law_pieces_make_the_texts(ps: Seq<(DiffOp, Seq<char>)>, s: Seq<char>)
    ensures
        old_text(Seq::empty()).len() == 0 && new_text(Seq::empty()).len() == 0,
        old_text(ps.push((DiffOp::Equal, s))) == old_text(ps) + s,
        new_text(ps.push((DiffOp::Equal, s))) == new_text(ps) + s,
        old_text(ps.push((DiffOp::Delete, s))) == old_text(ps) + s,
        new_text(ps.push((DiffOp::Delete, s))) == new_text(ps),
        old_text(ps.push((DiffOp::Insert, s))) == old_text(ps),
        new_text(ps.push((DiffOp::Insert, s))) == new_text(ps) + s,
{
    assert(ps.push((DiffOp::Equal, s)).drop_last() =~= ps);
    assert(ps.push((DiffOp::Delete, s)).drop_last() =~= ps);
    assert(ps.push((DiffOp::Insert, s)).drop_last() =~= ps);
}

/// What is written of bytes in an insertion is ASCII without tabs, and decodes to the bytes.
pub proof fn law_insertions_decode_to_what_was_written(bytes: Seq<u8>)
    ensures
        vstd::utf8::is_ascii_chars(percent_encoded(bytes)),
        !percent_encoded(bytes).contains('\t'),
        percent_decoded(vstd::utf8::encode_utf8(percent_encoded(bytes))) == bytes,
{
    lemma_percent_round_trip(bytes);
}

/// What comes of applying a delta is read as it is: a text by its characters, a fault as that
/// fault. A delta leads to a text exactly where it decodes and gives that text.
pub proof fn law_results_of_deltas(
    s: String,
    fault: DeltaFault,
    ps: Vec<DiffPiece>,
    delta: Seq<char>,
    old: Seq<char>,
    new: Seq<char>,
    i: int,
)
    ensures
        applied(Ok(s)) == Ok::<Seq<char>, DeltaFault>(s@),
        applied(Err(fault)) == Err::<Seq<char>, DeltaFault>(fault),
        pieces(ps@).len() == ps@.len(),
        0 <= i < ps@.len() ==> pieces(ps@)[i] == (ps@[i].op, ps@[i].text@),
        leads_to(delta, old, new) <==> decodes(old.len(), delta) && delta_result(old, delta) == Ok::<
            Seq<char>,
            DeltaFault,
        >(new),
        delta_pieces(old, delta) matches Ok(found) ==> delta_result(old, delta) == Ok::<
            Seq<char>,
            DeltaFault,
        >(new_text(found)),
        delta_pieces(old, delta) matches Err(e) ==> delta_result(old, delta) == Err::<
            Seq<char>,
            DeltaFault,
        >(e),
{
}

/// A delta that can be followed counts all of the text: the pieces that it stands for make up the
/// text that it is applied to.
pub proof fn law_deltas_count_all_of_the_text(old: Seq<char>, delta: Seq<char>)
    ensures
        delta_pieces(old, delta) matches Ok(ps) ==> old_text(ps) == old,
{
    lemma_followed_counts(text::split_on(delta, '\t'), old);
}

proof fn lemma_followed_counts(steps: Seq<Seq<char>>, left: Seq<char>)
    ensures
        followed(steps, left) matches Ok(ps) ==> old_text(ps) == left,
    decreases steps.len(),
{
    if steps.len() > 0 {
        let step = steps[0];
        let rest = steps.skip(1);
        lemma_followed_counts(rest, left);
        if let Ok(ps) = followed(steps, left) {
            if step.len() > 0 && step[0] == '+' {
                let tail = followed(rest, left)->Ok_0;
                lemma_old_text_first(ps);
                assert(ps.skip(1) =~= tail);
                assert(old_text(ps) =~= left);
            } else if step.len() > 0 && (step[0] == '-' || step[0] == '=') {
                let n = count_of(step.skip(1))->0;
                lemma_followed_counts(rest, left.skip(n));
                let tail = followed(rest, left.skip(n))->Ok_0;
                lemma_old_text_first(ps);
                assert(ps.skip(1) =~= tail);
                assert(left =~= left.take(n) + left.skip(n));
                assert(old_text(ps) =~= left);
            }
        }
    } else {
        assert(left.len() == 0 ==> old_text(Seq::empty()) =~= left);
    }
}

/// A difference keeps what two texts end with alike, behind what they begin with alike: its last
/// piece is kept and holds all of it.
pub proof fn law_a_difference_keeps_the_end(
    ps: Seq<(DiffOp, Seq<char>)>,
    old: Seq<char>,
    new: Seq<char>,
    start: int,
    n: int,
)
    requires
        texts_differ(ps, old, new),
        0 <= start && 0 < n,
        start + n <= old.len() && start + n <= new.len(),
        old.take(start) == new.take(start),
        old[start] != new[start],
        old.skip(old.len() - n) == new.skip(new.len() - n),
    ensures
        ps.len() > 0,
        ps.last().0 == DiffOp::Equal,
        ps.last().1.len() >= n,
        ps.last().1.skip(ps.last().1.len() - n) == old.skip(old.len() - n),
{
    lemma_alike_exactly(old, new, start);
    let a = old.skip(start);
    let b = new.skip(start);
    assert(a.skip(a.len() - n) =~= old.skip(old.len() - n));
    assert(b.skip(b.len() - n) =~= new.skip(new.len() - n));
    lemma_alike_behind_at_least(a, b, n);
    lemma_alike_behind(a, b);
    let end = alike_after(old, new) as int;
    let back = kept(old.skip(old.len() - end));
    assert(back.len() == 1);
    assert(ps.last() == back[0]);
    assert(ps.last().1.skip(ps.last().1.len() - n) =~= old.skip(old.len() - n));
}

proof fn lemma_alike_exactly(a: Seq<char>, b: Seq<char>, n: int)
    requires
        0 <= n < a.len(),
        n < b.len(),
        a.take(n) == b.take(n),
        a[n] != b[n],
    ensures
        alike_before(a, b) == n,
    decreases n,
{
    if n > 0 {
        assert(a[0] == a.take(n)[0]);
        assert(b[0] == b.take(n)[0]);
        assert(a.skip(1).take(n - 1) =~= a.take(n).skip(1));
        assert(b.skip(1).take(n - 1) =~= b.take(n).skip(1));
        lemma_alike_exactly(a.skip(1), b.skip(1), n - 1);
    }
}

proof fn lemma_alike_behind_at_least(a: Seq<char>, b: Seq<char>, n: int)
    requires
        0 <= n <= a.len(),
        n <= b.len(),
        a.skip(a.len() - n) == b.skip(b.len() - n),
    ensures
        alike_behind(a, b) >= n,
    decreases n,
{
    if n > 0 {
        let (x, y) = (a.drop_last(), b.drop_last());
        assert(a.last() == a.skip(a.len() - n)[n - 1]);
        assert(b.last() == b.skip(b.len() - n)[n - 1]);
        assert(x.skip(x.len() - (n - 1)) =~= a.skip(a.len() - n).drop_last());
        assert(y.skip(y.len() - (n - 1)) =~= b.skip(b.len() - n).drop_last());
        lemma_alike_behind_at_least(x, y, n - 1);
    }
}

/// Two texts cannot be searched where both have more than a hundred characters, nor where a
/// character stands at two places in each of them.
pub proof fn law_what_is_not_searched(
    old: Seq<char>,
    new: Seq<char>,
    i: int,
    j: int,
    k: int,
    l: int,
)
    requires
        0 <= i < j < old.len(),
        0 <= k < l < new.len(),
    ensures
        old.len() > 100 && new.len() > 100 ==> !searchable(old, new),
        old[i] == old[j] && new[k] == new[l] && old[i] == new[k] ==> !searchable(old, new),
{
    if old[i] == old[j] && new[k] == new[l] && old[i] == new[k] {
        assert(stands_twice(old, old[i]));
        assert(stands_twice(new, old[i]));
    }
}

/// Texts of which one has at most a hundred characters, none of them at two places, can be
/// searched.
pub proof fn law_what_is_searched(old: Seq<char>, new: Seq<char>)
    requires
        old.len() <= 100 || new.len() <= 100,
        old.no_duplicates() || new.no_duplicates(),
    ensures
        searchable(old, new),
{
}

/// Where what stands between the common beginning and the common end cannot be searched, it is
/// deleted as a whole, and what stands there in the new text is inserted.
pub proof fn law_what_is_not_searched_is_replaced(
    ps: Seq<(DiffOp, Seq<char>)>,
    old: Seq<char>,
    new: Seq<char>,
)
    requires
        texts_differ(ps, old, new),
        old.len() > 0 && new.len() > 0,
        old[0] != new[0],
        old.last() != new.last(),
        !searchable(old, new),
    ensures
        ps == seq![(DiffOp::Delete, old), (DiffOp::Insert, new)],
{
    assert(old.skip(0) =~= old && new.skip(0) =~= new);
    assert(old.subrange(0, old.len() as int) =~= old);
    assert(new.subrange(0, new.len() as int) =~= new);
    let pair = seq![(DiffOp::Delete, old), (DiffOp::Insert, new)];
    assert(kept(old.take(0)) + pair + kept(old.skip(old.len() as int)) =~= pair);
}

} // verus!
