use tsumugi::delta::{
    apply_delta, delta_decodes, make_delta, text_after, DeltaFault, DiffOp, DiffPiece,
};
use tsumugi::line_diff::{
    diff_of_all_lines, diff_of_lines, line_lcs, quick_diff_preview, DiffLine,
};
use tsumugi::order::order_newest_first;

fn pairs(lines: &[DiffLine]) -> Vec<(String, String)> {
    lines.iter().map(|l| (l.op.clone(), l.text.clone())).collect()
}

fn pair(op: &str, text: &str) -> (String, String) {
    (op.to_string(), text.to_string())
}

fn strings(texts: &[&str]) -> Vec<String> {
    texts.iter().map(|t| t.to_string()).collect()
}

#[test]
fn delta_leads_to_the_new_text() {
    let cases = [
        ("", ""),
        ("", "a"),
        ("a", ""),
        ("hello world", "hello brave new world"),
        ("tab\tand %41 percent", "tab\t\tand %42 percent\r\n"),
        ("日本語のテキスト", "日本語の長いテキスト🎉"),
        ("one\ntwo\nthree\n", "one\n2\nthree\nfour\n"),
        ("+a=b-c", "-a+b=c\u{feff}"),
    ];
    for (old, new) in cases {
        let delta = make_delta(old, new).expect("a delta");
        assert!(delta_decodes(old, &delta));
        assert_eq!(apply_delta(old, &delta).as_deref(), Ok(new));
    }
}

#[test]
fn delta_of_a_long_text_leads_to_the_new_text() {
    let mut old = String::new();
    let mut new = String::new();
    for i in 0..400 {
        old.push_str(&format!("line {} of the document\n", i));
        if i % 7 != 0 {
            new.push_str(&format!("line {} of the document\n", i));
        }
        if i % 11 == 0 {
            new.push_str("another line %e6 + more\n");
        }
    }
    let delta = make_delta(&old, &new).expect("a delta");
    assert_eq!(apply_delta(&old, &delta), Ok(new));
}

struct Numbers(u64);

impl Numbers {
    fn below(&mut self, n: usize) -> usize {
        self.0 = self.0.wrapping_mul(6364136223846793005).wrapping_add(1442695040888963407);
        (self.0 >> 33) as usize % n
    }
}

#[test]
fn deltas_of_many_texts_lead_to_the_new_text() {
    let words =
        ["a", "b", "ab", " ", "\n", "\t", "%", "%41", "+", "=3", "\r\n", "é", "日本", "🎉"];
    let mut numbers = Numbers(42);
    for round in 0..400 {
        let length = 1 + numbers.below(if round % 4 == 0 { 300 } else { 12 });
        let old: Vec<&str> = (0..length).map(|_| words[numbers.below(words.len())]).collect();
        let mut new = old.clone();
        for _ in 0..numbers.below(8) {
            let at = numbers.below(new.len() + 1);
            if numbers.below(2) == 0 || new.is_empty() {
                new.insert(at, words[numbers.below(words.len())]);
            } else {
                new.remove(at.min(new.len() - 1));
            }
        }
        if round % 9 == 0 {
            new.reverse();
        }
        let (old, new) = (old.concat(), new.concat());
        let delta = make_delta(&old, &new).expect("a delta");
        assert!(delta_decodes(&old, &delta));
        assert_eq!(apply_delta(&old, &delta), Ok(new));
    }
}

#[test]
fn simple_edits_always_have_deltas() {
    let text: Vec<char> =
        (0..6000).map(|i| ['a', '\n', 'b', '語', ' ', 'a'][(i * i + i / 7) % 6]).collect();
    let long: String = text.iter().rev().collect();
    for at in [0, 1, 2999, 5999, 6000] {
        for gone in [0, 1] {
            for come in ["", "a", "語", "\n", long.as_str()] {
                let end = (at + gone).min(text.len());
                let before: String = text[..at].iter().collect();
                let after: String = text[end..].iter().collect();
                let old: String = text.iter().collect();
                let new = format!("{}{}{}", before, come, after);
                for (from, to) in [(&old, &new), (&new, &old)] {
                    let delta = make_delta(from, to).expect("a delta");
                    assert_eq!(apply_delta(from, &delta).as_deref(), Ok(to.as_str()));
                }
            }
        }
    }
}

#[test]
fn unlike_texts_have_deltas() {
    let mut numbers = Numbers(7);
    for round in 0..3000 {
        let letters = ["ab", "abc", "ab\n", "abcdefgh", "a語\u{301}"][round % 5];
        let letters: Vec<char> = letters.chars().collect();
        let longest = [4, 12, 40, 130][round % 4];
        let mut texts = vec![];
        for _ in 0..2 {
            let length = numbers.below(longest + 1);
            let text: String =
                (0..length).map(|_| letters[numbers.below(letters.len())]).collect();
            texts.push(text);
        }
        let delta = make_delta(&texts[0], &texts[1]).expect("a delta");
        assert_eq!(apply_delta(&texts[0], &delta).as_ref(), Ok(&texts[1]));
    }
}

#[test]
fn texts_with_many_repeats_have_deltas() {
    let word = "abcdefg";
    let old = format!("{}y{}abcdehg{}r", word, word.repeat(3), word.repeat(2));
    let new = format!(
        "abcd{}{}abcdehg{}{}",
        "x".repeat(19),
        word.repeat(3),
        word.repeat(3),
        "t".repeat(17)
    );
    for (from, to) in [(&old, &new), (&new, &old)] {
        let delta = make_delta(from, to).expect("a delta");
        assert_eq!(apply_delta(from, &delta).as_ref(), Ok(to));
    }
    let c = "c".repeat(40);
    let h = "h".repeat(30);
    let old = format!("\n{}\n{}\n{}\n{}{}", c, "d".repeat(200), c, h, "x".repeat(30));
    let new = format!("\n{}\n{}\n{}{}", "b".repeat(10), c, h, "y".repeat(30));
    for (from, to) in [(&old, &new), (&new, &old)] {
        let delta = make_delta(from, to).expect("a delta");
        assert_eq!(apply_delta(from, &delta).as_ref(), Ok(to));
    }
}

#[test]
fn texts_that_can_be_searched_keep_what_they_share() {
    assert_eq!(make_delta("x1a2", "x3a4").as_deref(), Ok("=1\t-1\t+3\t=1\t-1\t+4"));
    assert_eq!(make_delta("one,two", "a,b").as_deref(), Ok("-3\t+a\t=1\t-3\t+b"));
    assert_eq!(make_delta("1aa2", "3a4").as_deref(), Ok("-1\t+3\t=1\t-2\t+4"));
    let (ones, twos) = ("1".repeat(101), "2".repeat(100));
    let delta = make_delta(&format!("{}a{}", ones, ones), &format!("{}a", twos));
    assert_eq!(delta, Ok(format!("-203\t+{}a", twos)));
    let delta = make_delta(&format!("{}a{}", ones, ones), "2a3");
    assert_eq!(delta.as_deref(), Ok("-101\t+2\t=1\t-101\t+3"));
}

#[test]
fn other_texts_keep_only_their_ends() {
    assert_eq!(make_delta("x1aa2y", "x3aa4y").as_deref(), Ok("=1\t-4\t+3aa4\t=1"));
    assert_eq!(make_delta("aab", "caad").as_deref(), Ok("-3\t+caad"));
}

#[test]
fn searched_texts_have_deltas() {
    let mut numbers = Numbers(11);
    let letters: Vec<char> = ('a'..='z').chain(['\n', ' ', '語', '\u{301}']).collect();
    for round in 0..2000 {
        let mut order = letters.clone();
        for i in (1..order.len()).rev() {
            order.swap(i, numbers.below(i + 1));
        }
        let distinct: String = order[..1 + numbers.below(order.len())].iter().collect();
        let few = 2 + numbers.below(letters.len() - 2);
        let length = numbers.below([6, 40, 200][round % 3]);
        let any: String = (0..length).map(|_| letters[numbers.below(few)]).collect();
        for (from, to) in [(&distinct, &any), (&any, &distinct)] {
            let delta = make_delta(from, to).expect("a delta");
            assert_eq!(apply_delta(from, &delta).as_ref(), Ok(to));
        }
    }
}

#[test]
fn made_deltas_are_written_in_steps() {
    assert_eq!(make_delta("abc", "abd").as_deref(), Ok("=2\t-1\t+d"));
    assert_eq!(make_delta("abc", "abc").as_deref(), Ok("=3"));
    assert_eq!(make_delta("", "").as_deref(), Ok(""));
    assert_eq!(make_delta("日本", "").as_deref(), Ok("-2"));
    assert_eq!(
        make_delta("", "a +-=b%<>é[x]{y}|^`\\\"\t\n~!\u{7f}").as_deref(),
        Ok("+a +-=b%25%3C%3E%C3%A9%5Bx%5D%7By%7D%7C%5E%60%5C%22%09%0A~!%7F")
    );
}

#[test]
fn delta_is_written_in_steps() {
    assert_eq!(apply_delta("abc", "\t=1\t\t=2\t").as_deref(), Ok("abc"));
    assert_eq!(apply_delta("abc", "=+1\t-002").as_deref(), Ok("a"));
    assert_eq!(apply_delta("abc", "=3\t+%4g%e3%81%82%").as_deref(), Ok("abc%4gあ%"));
    assert_eq!(apply_delta("abc", "=1\t-1\t+X%20Y\t=1").as_deref(), Ok("aX Yc"));
    assert_eq!(apply_delta("abc", "=3").as_deref(), Ok("abc"));
    assert_eq!(apply_delta("", "").as_deref(), Ok(""));
}

#[test]
fn broken_deltas_are_refused() {
    assert_eq!(apply_delta("abc", "=4"), Err(DeltaFault::InvalidInput));
    assert_eq!(apply_delta("abc", "=2"), Err(DeltaFault::InvalidInput));
    assert_eq!(apply_delta("abc", "*3"), Err(DeltaFault::InvalidInput));
    assert_eq!(apply_delta("abc", "=-1"), Err(DeltaFault::InvalidInput));
    assert_eq!(apply_delta("abc", "=x"), Err(DeltaFault::Utf8Error));
    assert_eq!(apply_delta("abc", "="), Err(DeltaFault::Utf8Error));
    assert_eq!(apply_delta("abc", "=-"), Err(DeltaFault::Utf8Error));
    assert_eq!(apply_delta("abc", ""), Err(DeltaFault::InvalidInput));
    let most = isize::MAX.to_string();
    let over = format!("{}0", most);
    assert_eq!(apply_delta("abc", &format!("={}", most)), Err(DeltaFault::InvalidInput));
    assert_eq!(apply_delta("abc", &format!("={}", over)), Err(DeltaFault::Utf8Error));
    assert_eq!(apply_delta("abc", &format!("-{}", isize::MIN)), Err(DeltaFault::InvalidInput));
    assert_eq!(apply_delta("abc", &format!("--{}", over)), Err(DeltaFault::Utf8Error));
}

#[test]
fn undecodable_insertions_are_found() {
    assert!(delta_decodes("abc", "+%E3%81%82\t=3"));
    assert!(delta_decodes("abc", "+100%\t=3"));
    assert!(delta_decodes("abc", "=%ff"));
    for delta in [
        "+%ff",
        "\t+%ff",
        "=1\t+%E3%81",
        "=3\t+%ff",
        "-2\t=1\t+%ff",
        "=+3\t+%ff",
        "=-0\t+%ff",
        "=003\t+%ff",
    ] {
        assert!(!delta_decodes("abc", delta), "{}", delta);
    }
}

#[test]
fn what_is_not_reached_need_not_decode() {
    let cases = [
        ("=4\t+%ff", DeltaFault::InvalidInput),
        ("=2\t=2\t+%ff", DeltaFault::InvalidInput),
        ("=-1\t+%ff", DeltaFault::InvalidInput),
        ("*\t+%ff", DeltaFault::InvalidInput),
        ("=\t+%ff", DeltaFault::Utf8Error),
        ("=+\t+%ff", DeltaFault::Utf8Error),
        ("= 1\t+%ff", DeltaFault::Utf8Error),
        ("=1x\t+%ff", DeltaFault::Utf8Error),
        ("=99999999999999999999999\t+%ff", DeltaFault::Utf8Error),
        ("=-99999999999999999999999\t+%ff", DeltaFault::Utf8Error),
    ];
    for (delta, fault) in cases {
        assert!(delta_decodes("abc", delta), "{}", delta);
        assert_eq!(apply_delta("abc", delta), Err(fault), "{}", delta);
    }
}

#[test]
fn text_after_leaves_out_what_is_deleted() {
    let pieces = vec![
        DiffPiece { op: DiffOp::Equal, text: vec!['a'] },
        DiffPiece { op: DiffOp::Delete, text: vec!['b', 'c'] },
        DiffPiece { op: DiffOp::Insert, text: vec!['d'] },
    ];
    assert_eq!(text_after(&pieces), "ad");
}

#[test]
fn common_lines_are_the_longest_run() {
    let a = strings(&["a", "b", "c", "d"]);
    let b = strings(&["b", "x", "d", "a"]);
    assert_eq!(line_lcs(&a, &b), strings(&["b", "d"]));
    assert_eq!(line_lcs(&a, &a), a);
    assert_eq!(line_lcs(&a, &strings(&[])), strings(&[]));
}

#[test]
fn changed_lines_are_marked() {
    let diff = diff_of_lines("a\nb\nc", "a\nx\nc\nd");
    assert_eq!(
        pairs(&diff),
        vec![
            pair("equal", "a"),
            pair("delete", "b"),
            pair("insert", "x"),
            pair("equal", "c"),
            pair("insert", "d"),
        ]
    );
    assert_eq!(pairs(&diff_of_lines("", "")), vec![pair("equal", "")]);
}

#[test]
fn marked_lines_hold_both_texts() {
    let (old, new) = ("a\nb\nb\nc\n", "b\nc\na\nb\n");
    let diff = diff_of_lines(old, new);
    let side = |left_out: &str| -> String {
        let kept: Vec<&str> =
            diff.iter().filter(|l| l.op != left_out).map(|l| l.text.as_str()).collect();
        kept.join("\n")
    };
    assert_eq!(side("insert"), old);
    assert_eq!(side("delete"), new);
}

#[test]
fn equal_lines_are_the_common_lines() {
    let texts = ["", "a\nb\nc", "b\nc\na", "c\nb\na\nb", "a\n\nb\n", "x\ny"];
    for old in texts {
        for new in texts {
            let equal: Vec<String> = diff_of_lines(old, new)
                .into_iter()
                .filter(|l| l.op == "equal")
                .map(|l| l.text)
                .collect();
            let a: Vec<&str> = old.split('\n').collect();
            let b: Vec<&str> = new.split('\n').collect();
            assert_eq!(equal, line_lcs(&strings(&a), &strings(&b)));
        }
    }
    let kept = diff_of_lines("a\nb\nc", "b\nc\na");
    assert_eq!(kept.iter().filter(|l| l.op == "equal").count(), 2);
}

#[test]
fn all_lines_are_shown_where_nothing_is_compared() {
    assert_eq!(
        pairs(&diff_of_all_lines("a\nb", "c")),
        vec![pair("delete", "a"), pair("delete", "b"), pair("insert", "c")]
    );
}

#[test]
fn preview_shows_the_first_change() {
    let (lines, total) = quick_diff_preview("a\nb\nc\nd", "a\nx\ny\nd");
    assert_eq!(pairs(&lines), vec![pair("delete", "b"), pair("insert", "x")]);
    assert_eq!(total, 4);
    let (lines, total) = quick_diff_preview("a\nd", "a\nb\nd");
    assert_eq!(pairs(&lines), vec![pair("insert", "b")]);
    assert_eq!(total, 1);
    let (lines, total) = quick_diff_preview("same", "same");
    assert!(lines.is_empty());
    assert_eq!(total, 0);
    let (_, total) = quick_diff_preview("a\na", "a");
    assert_eq!(total, 1);
}

#[test]
fn newest_come_first() {
    assert_eq!(order_newest_first(&vec![3, 9, 3, 7]), vec![1, 3, 0, 2]);
    assert_eq!(order_newest_first(&vec![]), Vec::<usize>::new());
}
