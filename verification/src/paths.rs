//! Paths: the names under which histories are kept, and which paths may be touched.
use vstd::prelude::*;

use crate::stable_hash;
use crate::stable_hash::fnv1a64;
use crate::text;
use crate::text::{
    contains_char, decimal_string, hex_string, join, join3, replace_char, starts_with,
};

verus! {

/// The bytes of a text in UTF-8.
pub open spec fn utf8(s: Seq<char>) -> Seq<u8> {
    vstd::utf8::encode_utf8(s)
}

/// The path that stands for a file: the canonical one, or the path itself where there is none.
pub open spec fn standing(path: Seq<char>, canonical: Option<Seq<char>>) -> Seq<char> {
    match canonical {
        Some(c) => c,
        None => path,
    }
}

/// The hash of a path, in sixteen hexadecimal digits.
pub open spec fn path_id(path: Seq<char>, canonical: Option<Seq<char>>) -> Seq<char> {
    text::hex(stable_hash::fnv1a(utf8(standing(path, canonical))) as nat, 16)
}

/// The name of a file's history: the hash of its canonical path, or of the path itself where there
/// is no canonical one.
pub fn path_hash(path: &str, canonical: Option<&str>) -> (hash: String)
    ensures
        hash@ == path_id(path@, text::content_of_str(canonical)),
{
    let standing = match canonical {
        Some(c) => c,
        None => path,
    };
    hex_string(fnv1a64(standing.as_bytes()), 16)
}

/// Two spellings of a path with the same canonical path have the same hash.
pub proof fn law_one_file_has_one_hash(a: Seq<char>, b: Seq<char>, canonical: Seq<char>)
    ensures
        path_id(a, Some(canonical)) == path_id(b, Some(canonical)),
        path_id(a, Some(canonical)) == path_id(canonical, None),
{
}

/// A path on another machine, or on a mounted volume.
pub open spec fn on_network(path: Seq<char>) -> bool {
    ||| text::has_prefix(path, "\\\\"@)
    ||| text::has_prefix(path, "//"@)
    ||| text::has_prefix(path, "\\\\?\\UNC\\"@)
    ||| text::has_prefix(path, "/Volumes/"@)
}

/// Whether a path lies on another machine, or on a mounted volume.
pub fn is_network_path(path: &str) -> (b: bool)
    ensures
        b == on_network(path@),
{
    starts_with(path, "\\\\") || starts_with(path, "//") || starts_with(path, "\\\\?\\UNC\\")
        || starts_with(path, "/Volumes/")
}

/// A path of the form `\\\\?\\C:`: a drive letter behind the prefix of extended Windows paths.
pub open spec fn is_verbatim_disk(path: Seq<char>) -> bool {
    text::has_prefix(path, "\\\\?\\"@) && path.len() >= 6 && path[5] == ':'
}

/// A path, or the same path without the prefix of extended Windows paths.
pub open spec fn simplifies(path: Seq<char>, simple: Seq<char>) -> bool {
    simple == path || is_verbatim_disk(path) && simple == path.skip(4)
}

/// `dunce::simplified`: the prefix of extended Windows paths is taken off a path with a drive
/// letter, or the path stays as it is. Elsewhere than on Windows paths always stay as they are, and
/// on Windows some do for their file names or length; which of them is left open.
#[verifier::external_body]
fn simplified(path: &str) -> (simple: String)
    ensures
        simplifies(path@, simple@),
{
    dunce::simplified(std::path::Path::new(path)).to_string_lossy().into_owned()
}

/// A path without the prefix of extended Windows paths, where it can do without.
pub fn normalize_path(path: &str) -> (simple: String)
    ensures
        simplifies(path@, simple@),
        !is_verbatim_disk(path@) ==> simple@ == path@,
{
    simplified(path)
}

/// The path under which a document is known: the canonical one, or else the path itself, without
/// the prefix of extended Windows paths.
pub fn document_path(path: &str, canonical: Option<&str>) -> (known: String)
    ensures
        simplifies(standing(path@, text::content_of_str(canonical)), known@),
{
    match canonical {
        Some(c) => normalize_path(c),
        None => normalize_path(path),
    }
}

/// `str::to_lowercase`: the text in lower case, after Unicode.
pub uninterp spec fn lowercase(s: Seq<char>) -> Seq<char>;

/// `str::to_lowercase`.
#[verifier::external_body]
fn to_lowercase(s: &str) -> (lower: String)
    ensures
        lower@ == lowercase(s@),
{
    s.to_lowercase()
}

/// What came of resolving a path to a canonical one.
#[derive(Debug)]
pub enum Resolution {
    /// The canonical path: that of the file, or for a new file that of its directory with the
    /// file's name behind it.
    Canonical(String),
    /// There is no such file, and the path names no directory that it could be in.
    NoParent,
    /// There is no such file, and its directory could not be resolved, for this reason.
    ParentFailed(String),
}

/// What the machine says of itself: whether it runs Windows, where Windows, under either name, and
/// programs are installed, and the user's home directory.
#[derive(Debug)]
pub struct Surroundings {
    pub windows: bool,
    pub system_root: Option<String>,
    pub windir: Option<String>,
    pub program_files: Option<String>,
    pub program_files_x86: Option<String>,
    pub home: Option<String>,
}

/// A directory, if it is known.
pub open spec fn known(dir: Option<String>) -> Seq<Seq<char>> {
    match dir {
        Some(d) => seq![d@],
        None => Seq::empty(),
    }
}

/// The directories of the system that are blocked.
pub open spec fn system_prefixes(env: Surroundings) -> Seq<Seq<char>> {
    if env.windows {
        (if env.system_root is Some {
            known(env.system_root)
        } else {
            known(env.windir)
        }) + known(env.program_files) + known(env.program_files_x86)
    } else {
        seq!["/etc"@, "/private/etc"@, "/usr"@, "/bin"@, "/sbin"@, "/System"@]
    }
}

/// The directories of the user that are blocked.
pub open spec fn home_prefixes(env: Surroundings) -> Seq<Seq<char>> {
    match env.home {
        Some(home) => if env.windows {
            seq![home@ + "\\.ssh"@, home@ + "\\.aws"@]
        } else {
            seq![home@ + "/.ssh"@, home@ + "/.aws"@, home@ + "/.gnupg"@]
        },
        None => Seq::empty(),
    }
}

/// What a path must not begin with.
pub open spec fn blocked_prefixes(env: Surroundings) -> Seq<Seq<char>> {
    system_prefixes(env) + home_prefixes(env)
}

/// A path as it is compared: on Windows upper and lower case are the same.
pub open spec fn compared(s: Seq<char>, windows: bool) -> Seq<char> {
    if windows {
        lowercase(s)
    } else {
        s
    }
}

/// A path begins with a prefix.
pub open spec fn lies_under(path: Seq<char>, prefix: Seq<char>, windows: bool) -> bool {
    text::has_prefix(compared(path, windows), compared(prefix, windows))
}

/// The position of the first of some prefixes with which a text begins.
pub open spec fn first_prefix(s: Seq<char>, prefixes: Seq<Seq<char>>) -> Option<int>
    decreases prefixes.len(),
{
    if prefixes.len() == 0 {
        None
    } else {
        match first_prefix(s, prefixes.drop_last()) {
            Some(i) => Some(i),
            None => if text::has_prefix(s, prefixes.last()) {
                Some(prefixes.len() - 1)
            } else {
                None
            },
        }
    }
}

/// Some prefixes as they are compared.
pub open spec fn all_compared(prefixes: Seq<Seq<char>>, windows: bool) -> Seq<Seq<char>> {
    prefixes.map_values(|p: Seq<char>| compared(p, windows))
}

/// The first of some prefixes with which a path begins.
pub open spec fn first_blocking(path: Seq<char>, prefixes: Seq<Seq<char>>, windows: bool) -> Option<
    Seq<char>,
> {
    match first_prefix(compared(path, windows), all_compared(prefixes, windows)) {
        Some(i) => Some(prefixes[i]),
        None => None,
    }
}

/// What a resolved path is: the path itself, or why it cannot be had.
pub open spec fn resolved(r: Resolution) -> Result<Seq<char>, Seq<char>> {
    match r {
        Resolution::Canonical(path) => Ok(path@),
        Resolution::NoParent => Err("Invalid path"@),
        Resolution::ParentFailed(why) => Err("Invalid path: "@ + why@),
    }
}

/// The canonical path of a file that may be touched, or why it may not.
pub open spec fn validated(path: Seq<char>, r: Resolution, env: Surroundings) -> Result<
    Seq<char>,
    Seq<char>,
> {
    if path.contains('\0') {
        Err("Invalid path"@)
    } else {
        match resolved(r) {
            Ok(canonical) => match first_blocking(canonical, blocked_prefixes(env), env.windows) {
                Some(prefix) => Err("Access denied: "@ + prefix),
                None => Ok(canonical),
            },
            Err(why) => Err(why),
        }
    }
}

/// The contents of a path or of a reason.
pub open spec fn outcome(r: Result<String, String>) -> Result<Seq<char>, Seq<char>> {
    match r {
        Ok(s) => Ok(s@),
        Err(s) => Err(s@),
    }
}

fn push_known(prefixes: &mut Vec<String>, dir: &Option<String>)
    ensures
        text::contents(final(prefixes)@) == text::contents(old(prefixes)@) + known(*dir),
{
    let ghost before = text::contents(prefixes@);
    match dir {
        Some(d) => {
            prefixes.push(d.clone());
            assert(text::contents(prefixes@) =~= before + known(*dir));
        },
        None => {
            assert(before =~= before + known(*dir));
        },
    }
}

fn push_text(prefixes: &mut Vec<String>, prefix: String)
    ensures
        text::contents(final(prefixes)@) == text::contents(old(prefixes)@).push(prefix@),
{
    let ghost before = text::contents(prefixes@);
    prefixes.push(prefix);
    assert(text::contents(prefixes@) =~= before.push(prefix@));
}

/// What a path must not begin with.
pub fn blocked(env: &Surroundings) -> (prefixes: Vec<String>)
    ensures
        text::contents(prefixes@) == blocked_prefixes(*env),
{
    let mut prefixes: Vec<String> = Vec::new();
    assert(text::contents(prefixes@) =~= Seq::empty());
    if env.windows {
        if env.system_root.is_some() {
            push_known(&mut prefixes, &env.system_root);
        } else {
            push_known(&mut prefixes, &env.windir);
        }
        push_known(&mut prefixes, &env.program_files);
        push_known(&mut prefixes, &env.program_files_x86);
    } else {
        push_text(&mut prefixes, "/etc".to_owned());
        push_text(&mut prefixes, "/private/etc".to_owned());
        push_text(&mut prefixes, "/usr".to_owned());
        push_text(&mut prefixes, "/bin".to_owned());
        push_text(&mut prefixes, "/sbin".to_owned());
        push_text(&mut prefixes, "/System".to_owned());
    }
    assert(text::contents(prefixes@) =~= system_prefixes(*env));
    if let Some(home) = &env.home {
        if env.windows {
            push_text(&mut prefixes, join(home.as_str(), "\\.ssh"));
            push_text(&mut prefixes, join(home.as_str(), "\\.aws"));
        } else {
            push_text(&mut prefixes, join(home.as_str(), "/.ssh"));
            push_text(&mut prefixes, join(home.as_str(), "/.aws"));
            push_text(&mut prefixes, join(home.as_str(), "/.gnupg"));
        }
    }
    assert(text::contents(prefixes@) =~= blocked_prefixes(*env));
    prefixes
}

fn to_compared(s: &str, windows: bool) -> (r: String)
    ensures
        r@ == compared(s@, windows),
{
    if windows {
        to_lowercase(s)
    } else {
        s.to_owned()
    }
}

/// The position of the first of some prefixes with which a text begins.
pub fn find_prefix(s: &str, prefixes: &Vec<String>) -> (found: Option<usize>)
    ensures
        match found {
            Some(i) => i < prefixes.len() && first_prefix(s@, text::contents(prefixes@)) == Some(
                i as int,
            ),
            None => first_prefix(s@, text::contents(prefixes@)) is None,
        },
{
    let ghost all = text::contents(prefixes@);
    let mut i: usize = 0;
    while i < prefixes.len()
        invariant
            i <= prefixes.len(),
            all == text::contents(prefixes@),
            first_prefix(s@, all.take(i as int)) is None,
        decreases prefixes.len() - i,
    {
        assert(all.take(i + 1).drop_last() =~= all.take(i as int));
        assert(all.take(i + 1).last() == prefixes@[i as int]@);
        if starts_with(s, prefixes[i].as_str()) {
            proof {
                lemma_first_prefix_stays(s@, all, i + 1);
            }
            return Some(i);
        }
        i += 1;
    }
    assert(all.take(i as int) =~= all);
    None
}

proof fn lemma_first_prefix_stays(s: Seq<char>, prefixes: Seq<Seq<char>>, n: int)
    requires
        0 <= n <= prefixes.len(),
        first_prefix(s, prefixes.take(n)) is Some,
    ensures
        first_prefix(s, prefixes) == first_prefix(s, prefixes.take(n)),
    decreases prefixes.len(),
{
    if n == prefixes.len() {
        assert(prefixes.take(n) =~= prefixes);
    } else {
        assert(prefixes.drop_last().take(n) =~= prefixes.take(n));
        lemma_first_prefix_stays(s, prefixes.drop_last(), n);
    }
}

/// The first of some prefixes with which a path begins.
fn find_blocking(path: &str, prefixes: &Vec<String>, windows: bool) -> (found: Option<usize>)
    ensures
        match found {
            Some(i) => i < prefixes.len() && first_blocking(
                path@,
                text::contents(prefixes@),
                windows,
            ) == Some(prefixes@[i as int]@),
            None => first_blocking(path@, text::contents(prefixes@), windows) is None,
        },
{
    let ghost all = all_compared(text::contents(prefixes@), windows);
    let target = to_compared(path, windows);
    let mut needles: Vec<String> = Vec::new();
    let mut i: usize = 0;
    while i < prefixes.len()
        invariant
            i <= prefixes.len(),
            all == all_compared(text::contents(prefixes@), windows),
            text::contents(needles@) == all.take(i as int),
        decreases prefixes.len() - i,
    {
        push_text(&mut needles, to_compared(prefixes[i].as_str(), windows));
        i += 1;
        assert(text::contents(needles@) =~= all.take(i as int));
    }
    assert(text::contents(needles@) =~= all);
    find_prefix(target.as_str(), &needles)
}

/// The canonical path of a file that may be touched, or why it may not: the path holds a null
/// character, cannot be resolved, or lies where the system or the user keeps what must not be
/// touched.
pub fn validate_path(path: &str, resolution: Resolution, env: &Surroundings) -> (r: Result<
    String,
    String,
>)
    ensures
        outcome(r) == validated(path@, resolution, *env),
{
    if contains_char(path, '\0') {
        return Err("Invalid path".to_owned());
    }
    let canonical = match resolution {
        Resolution::Canonical(path) => path,
        Resolution::NoParent => return Err("Invalid path".to_owned()),
        Resolution::ParentFailed(why) => return Err(join("Invalid path: ", why.as_str())),
    };
    let prefixes = blocked(env);
    match find_blocking(canonical.as_str(), &prefixes, env.windows) {
        Some(i) => Err(join("Access denied: ", prefixes[i].as_str())),
        None => Ok(canonical),
    }
}

proof fn lemma_first_prefix_found(s: Seq<char>, prefixes: Seq<Seq<char>>, i: int)
    requires
        0 <= i < prefixes.len(),
        text::has_prefix(s, prefixes[i]),
    ensures
        first_prefix(s, prefixes) is Some,
    decreases prefixes.len(),
{
    if i < prefixes.len() - 1 {
        assert(prefixes.drop_last()[i] == prefixes[i]);
        lemma_first_prefix_found(s, prefixes.drop_last(), i);
    }
}

/// No path that may be touched begins with a blocked prefix.
pub proof fn law_blocked_paths_are_denied(
    path: Seq<char>,
    r: Resolution,
    env: Surroundings,
    i: int,
)
    requires
        0 <= i < blocked_prefixes(env).len(),
    ensures
        validated(path, r, env) matches Ok(canonical) ==> !lies_under(
            canonical,
            blocked_prefixes(env)[i],
            env.windows,
        ),
{
    if let Ok(canonical) = validated(path, r, env) {
        if lies_under(canonical, blocked_prefixes(env)[i], env.windows) {
            lemma_first_prefix_found(
                compared(canonical, env.windows),
                all_compared(blocked_prefixes(env), env.windows),
                i,
            );
        }
    }
}

/// A path that may be touched may be touched once more: where it holds no null character and
/// resolves to itself, it is its own canonical path.
pub proof fn law_validated_path_is_valid(
    path: Seq<char>,
    r: Resolution,
    again: Resolution,
    env: Surroundings,
    canonical: Seq<char>,
)
    requires
        validated(path, r, env) == Ok::<Seq<char>, Seq<char>>(canonical),
        !canonical.contains('\0'),
        again matches Resolution::Canonical(c) && c@ == canonical,
    ensures
        validated(canonical, again, env) == Ok::<Seq<char>, Seq<char>>(canonical),
{
}

/// A text without the byte order mark that it may begin with.
pub open spec fn without_mark(s: Seq<char>) -> Seq<char> {
    if s.len() > 0 && s[0] == '\u{feff}' {
        s.skip(1)
    } else {
        s
    }
}

/// The text of a document, as it was read: a byte order mark at its beginning is dropped.
pub fn document_text(s: &str) -> (r: String)
    ensures
        r@ == without_mark(s@),
{
    let chars = text::chars_of(s);
    if chars.len() > 0 && chars[0] == '\u{feff}' {
        let r = text::string_of(&chars, 1, chars.len());
        assert(r@ =~= s@.skip(1));
        r
    } else {
        s.to_owned()
    }
}

/// The name of the file that is written before it takes the place of another.
pub open spec fn temporary(file_name: Option<Seq<char>>, pid: u32) -> Seq<char> {
    let name = match file_name {
        Some(n) => n,
        None => "file"@,
    };
    "."@ + name + "."@ + text::decimal(pid as nat) + ".tmp"@
}

/// The name of the file that a process writes before it takes the place of another.
pub fn temporary_name(file_name: Option<&str>, pid: u32) -> (name: String)
    ensures
        name@ == temporary(text::content_of_str(file_name), pid),
{
    let mut name: String = join(
        ".",
        match file_name {
            Some(n) => n,
            None => "file",
        },
    );
    name.append(".");
    name.append(decimal_string(pid as u64).as_str());
    name.append(".tmp");
    name
}

/// The identifier of a window that shows a file: its name in lower case, with hyphens for dots and
/// blanks, and the hash of its path.
pub open spec fn file_id(
    file_name: Option<Seq<char>>,
    path: Seq<char>,
    canonical: Option<Seq<char>>,
) -> Seq<char> {
    let name = match file_name {
        Some(n) => n,
        None => "unknown"@,
    };
    "file-"@ + text::replaced(text::replaced(lowercase(name), '.', '-'), ' ', '-') + "-"@ + path_id(
        path,
        canonical,
    )
}

/// The part of an identifier that a file's name makes, once it is in lower case.
pub fn hyphenated(lower: &str) -> (name: String)
    ensures
        name@ == text::replaced(text::replaced(lower@, '.', '-'), ' ', '-'),
{
    let dotless = replace_char(lower, '.', '-');
    replace_char(dotless.as_str(), ' ', '-')
}

/// The identifier of a window that shows a file.
pub fn file_to_id(file_name: Option<&str>, path: &str, canonical: Option<&str>) -> (id: String)
    ensures
        id@ == file_id(text::content_of_str(file_name), path@, text::content_of_str(canonical)),
{
    let lower = to_lowercase(
        match file_name {
            Some(n) => n,
            None => "unknown",
        },
    );
    let name = hyphenated(lower.as_str());
    let mut id: String = join3("file-", name.as_str(), "-");
    let hash = path_hash(path, canonical);
    id.append(hash.as_str());
    id
}

/// The identifier of a file's window ends in the name of the file's history.
pub proof fn law_identifier_ends_in_the_hash(
    file_name: Option<Seq<char>>,
    path: Seq<char>,
    canonical: Option<Seq<char>>,
)
    ensures
        path_id(path, canonical).len() == 16,
        file_id(file_name, path, canonical).skip(file_id(file_name, path, canonical).len() - 16)
            == path_id(path, canonical),
{
    text::lemma_hex_len(stable_hash::fnv1a(utf8(standing(path, canonical))) as nat, 16);
    let id = file_id(file_name, path, canonical);
    assert(id.skip(id.len() - 16) =~= path_id(path, canonical));
}

/// The name of a history's file.
pub fn history_file_name(file_hash: &str) -> (name: String)
    ensures
        name@ == file_hash@ + ".jsonl"@,
{
    join(file_hash, ".jsonl")
}

/// The name of the history that a file holds: none, if the file holds no history.
pub open spec fn history_in(file_name: Seq<char>) -> Option<Seq<char>> {
    let n = file_name.len();
    if n > 6 && file_name.skip(n - 6) == ".jsonl"@ {
        Some(file_name.take(n - 6))
    } else {
        None
    }
}

/// The name of the history that a file holds.
pub fn history_of_file(file_name: &str) -> (file_hash: Option<String>)
    ensures
        text::content_of(file_hash) == history_in(file_name@),
{
    let chars = text::chars_of(file_name);
    if chars.len() <= 6 {
        return None;
    }
    let n: usize = chars.len() - 6;
    let ending = text::string_of(&chars, n, chars.len());
    assert(ending@ =~= file_name@.skip(n as int));
    if text::same_text(ending.as_str(), ".jsonl") {
        let stem = text::string_of(&chars, 0, n);
        assert(stem@ =~= file_name@.take(n as int));
        Some(stem)
    } else {
        None
    }
}

/// The file of a history is found again under the history's name.
pub proof fn law_history_is_found_again(file_hash: Seq<char>)
    requires
        file_hash.len() > 0,
    ensures
        history_in(file_hash + ".jsonl"@) == Some(file_hash),
{
    reveal_strlit(".jsonl");
    let name = file_hash + ".jsonl"@;
    assert(name.skip(name.len() - 6) =~= ".jsonl"@);
    assert(name.take(name.len() - 6) =~= file_hash);
}

/// A file goes by its canonical path, and by the path itself only where there is none.
pub proof fn law_the_canonical_path_stands_for_a_file(path: Seq<char>, canonical: Seq<char>)
    ensures
        standing(path, Some(canonical)) == canonical,
        standing(path, None) == path,
        path_id(path, Some(canonical)) == text::hex(
            stable_hash::fnv1a(vstd::utf8::encode_utf8(canonical)) as nat,
            16,
        ),
{
}

/// The paths that lie on the network, by what they begin with.
pub proof fn law_network_paths(rest: Seq<char>, path: Seq<char>)
    ensures
        on_network("//"@ + rest),
        on_network("\\\\"@ + rest),
        on_network("/Volumes/"@ + rest),
        on_network("\\\\?\\UNC\\"@ + rest),
        on_network(path) ==> path == "//"@ + path.skip(2) || path == "\\\\"@ + path.skip(2) || path
            == "/Volumes/"@ + path.skip(9),
{
    reveal_strlit("//");
    reveal_strlit("\\\\");
    reveal_strlit("/Volumes/");
    reveal_strlit("\\\\?\\UNC\\");
    text::law_prefixes_stand_first(path, "//"@, rest);
    text::law_prefixes_stand_first(path, "\\\\"@, rest);
    text::law_prefixes_stand_first(path, "/Volumes/"@, rest);
    text::law_prefixes_stand_first(path, "\\\\?\\UNC\\"@, rest);
}

/// A simplified path is the path, or the path without the four characters of the prefix of extended
/// Windows paths, before a drive letter and a colon.
pub proof fn law_simplified_paths(path: Seq<char>, simple: Seq<char>)
    requires
        simplifies(path, simple),
        simple != path,
    ensures
        path == "\\\\?\\"@ + simple,
        simple.len() >= 2,
        simple[1] == ':',
{
    reveal_strlit("\\\\?\\");
    text::law_prefixes_stand_first(path, "\\\\?\\"@, simple);
}

/// Elsewhere than on Windows, the directories of the system and what the user keeps secret are
/// blocked, and nothing else is.
pub proof fn law_what_is_blocked(env: Surroundings)
    requires
        !env.windows,
    ensures
        ({
            let b = blocked_prefixes(env);
            &&& b.len() == if env.home is Some {
                9nat
            } else {
                6nat
            }
            &&& b[0] == "/etc"@ && b[1] == "/private/etc"@ && b[2] == "/usr"@
            &&& b[3] == "/bin"@ && b[4] == "/sbin"@ && b[5] == "/System"@
            &&& env.home matches Some(home) ==> b[6] == home@ + "/.ssh"@ && b[7] == home@ + "/.aws"@
                && b[8] == home@ + "/.gnupg"@
        }),
{
}

/// On Windows, the directories of the system and of programs, as far as they are known, and what
/// the user keeps secret are blocked.
pub proof fn law_what_is_blocked_on_windows(env: Surroundings)
    requires
        env.windows,
        env.program_files is Some,
        env.program_files_x86 is Some,
        env.system_root is Some || env.windir is Some,
    ensures
        ({
            let b = blocked_prefixes(env);
            &&& b.len() == if env.home is Some {
                5nat
            } else {
                3nat
            }
            &&& env.system_root matches Some(root) ==> b[0] == root@
            &&& env.system_root is None ==> b[0] == env.windir->0@
            &&& b[1] == env.program_files->0@
            &&& b[2] == env.program_files_x86->0@
            &&& env.home matches Some(home) ==> b[3] == home@ + "\\.ssh"@ && b[4] == home@
                + "\\.aws"@
        }),
{
}

/// What comes of checking a path: it is refused for a null character, and where it cannot be
/// resolved. Else it is refused where it begins with a blocked prefix, the first of which is told,
/// and is otherwise its canonical path. On Windows upper and lower case are the same.
pub proof fn law_what_comes_of_checking_a_path(
    path: Seq<char>,
    canonical: String,
    why: String,
    env: Surroundings,
    i: int,
)
    requires
        0 <= i <= blocked_prefixes(env).len(),
        forall|j: int|
            0 <= j < i ==> !text::has_prefix(
                if env.windows {
                    lowercase(canonical@)
                } else {
                    canonical@
                },
                if env.windows {
                    lowercase(#[trigger] blocked_prefixes(env)[j])
                } else {
                    blocked_prefixes(env)[j]
                },
            ),
        i < blocked_prefixes(env).len() ==> text::has_prefix(
            if env.windows {
                lowercase(canonical@)
            } else {
                canonical@
            },
            if env.windows {
                lowercase(blocked_prefixes(env)[i])
            } else {
                blocked_prefixes(env)[i]
            },
        ),
    ensures
        path.contains('\0') ==> validated(path, Resolution::Canonical(canonical), env) == Err::<
            Seq<char>,
            Seq<char>,
        >("Invalid path"@),
        validated(path, Resolution::NoParent, env) == Err::<Seq<char>, Seq<char>>("Invalid path"@),
        !path.contains('\0') ==> validated(path, Resolution::ParentFailed(why), env) == Err::<
            Seq<char>,
            Seq<char>,
        >("Invalid path: "@ + why@),
        !path.contains('\0') ==> validated(path, Resolution::Canonical(canonical), env) == if i
            < blocked_prefixes(env).len() {
            Err::<Seq<char>, Seq<char>>("Access denied: "@ + blocked_prefixes(env)[i])
        } else {
            Ok::<Seq<char>, Seq<char>>(canonical@)
        },
{
    let prefixes = all_compared(blocked_prefixes(env), env.windows);
    let target = compared(canonical@, env.windows);
    assert forall|j: int| 0 <= j < i implies !text::has_prefix(target, #[trigger] prefixes[j]) by {
        assert(prefixes[j] == compared(blocked_prefixes(env)[j], env.windows));
    }
    lemma_first_prefix_is(target, prefixes, i);
}

proof fn lemma_first_prefix_is(s: Seq<char>, prefixes: Seq<Seq<char>>, i: int)
    requires
        0 <= i <= prefixes.len(),
        forall|j: int| 0 <= j < i ==> !text::has_prefix(s, #[trigger] prefixes[j]),
        i < prefixes.len() ==> text::has_prefix(s, prefixes[i]),
    ensures
        first_prefix(s, prefixes) == if i < prefixes.len() {
            Some(i)
        } else {
            None
        },
    decreases prefixes.len(),
{
    if prefixes.len() > 0 {
        let front = prefixes.drop_last();
        if i < prefixes.len() {
            assert forall|j: int| 0 <= j < i implies !text::has_prefix(s, #[trigger] front[j]) by {
                assert(front[j] == prefixes[j]);
            }
            lemma_first_prefix_is(s, front, i);
        } else {
            assert forall|j: int| 0 <= j < front.len() implies !text::has_prefix(
                s,
                #[trigger] front[j],
            ) by {
                assert(front[j] == prefixes[j]);
            }
            lemma_first_prefix_is(s, front, i - 1);
            assert(!text::has_prefix(s, prefixes[i - 1]));
        }
    }
}

/// A byte order mark is dropped once, from the beginning of a text, and nothing else is.
pub proof fn law_one_mark_is_dropped(s: Seq<char>)
    ensures
        without_mark(seq!['\u{feff}'] + s) == s,
        s.len() > 0 && s[0] != '\u{feff}' ==> without_mark(s) == s,
        s.len() == 0 ==> without_mark(s) == s,
{
    assert((seq!['\u{feff}'] + s).skip(1) =~= s);
}

/// The name of a temporary file is hidden, and made of the file's name and the process.
pub proof fn law_temporary_names(name: Seq<char>, pid: u32)
    ensures
        temporary(Some(name), pid) == seq!['.'] + name + seq!['.'] + text::decimal(pid as nat)
            + seq!['.', 't', 'm', 'p'],
        temporary(None, pid) == temporary(Some(seq!['f', 'i', 'l', 'e']), pid),
{
    reveal_strlit(".");
    reveal_strlit(".tmp");
    reveal_strlit("file");
    assert("."@ =~= seq!['.']);
    assert(".tmp"@ =~= seq!['.', 't', 'm', 'p']);
    assert("file"@ =~= seq!['f', 'i', 'l', 'e']);
}

/// The identifier of a file's window begins with the word for files, and holds the file's name in
/// lower case, but no dot and no blank of it.
pub proof fn law_identifiers_of_files(
    name: Seq<char>,
    path: Seq<char>,
    canonical: Option<Seq<char>>,
    i: int,
)
    requires
        0 <= i < lowercase(name).len(),
    ensures
        ({
            let id = file_id(Some(name), path, canonical);
            let c = lowercase(name)[i];
            &&& id.len() == lowercase(name).len() + 22
            &&& text::has_prefix(id, "file-"@)
            &&& c == '.' || c == ' ' ==> id[5 + i] == '-'
            &&& c != '.' && c != ' ' ==> id[5 + i] == c
            &&& id[5 + lowercase(name).len() as int] == '-'
            &&& file_id(None, path, canonical) == file_id(Some("unknown"@), path, canonical)
        }),
{
    reveal_strlit("file-");
    reveal_strlit("-");
    law_identifier_ends_in_the_hash(Some(name), path, canonical);
    let id = file_id(Some(name), path, canonical);
    assert(id.take(5) =~= "file-"@);
}

/// A file holds a history exactly where its name is that of the history with the ending of history
/// files.
pub proof fn law_names_of_history_files(file_name: Seq<char>)
    ensures
        history_in(file_name) matches Some(h) ==> h.len() > 0 && file_name == h + ".jsonl"@,
        history_in(".jsonl"@) is None,
{
    reveal_strlit(".jsonl");
    if let Some(h) = history_in(file_name) {
        assert(file_name =~= h + file_name.skip(file_name.len() - 6));
    }
}

/// On Windows every directory that is known is blocked.
pub proof fn law_known_directories_are_blocked(env: Surroundings, d: String)
    requires
        env.windows,
    ensures
        known(Some(d)) == seq![d@],
        known(None).len() == 0,
        env.system_root == Some(d) ==> blocked_prefixes(env).contains(d@),
        env.system_root is None && env.windir == Some(d) ==> blocked_prefixes(env).contains(d@),
        env.program_files == Some(d) ==> blocked_prefixes(env).contains(d@),
        env.program_files_x86 == Some(d) ==> blocked_prefixes(env).contains(d@),
        env.home == Some(d) ==> blocked_prefixes(env).contains(d@ + "\\.ssh"@)
            && blocked_prefixes(env).contains(d@ + "\\.aws"@),
{
    let b = blocked_prefixes(env);
    let root = if env.system_root is Some {
        known(env.system_root)
    } else {
        known(env.windir)
    };
    let n = root.len() as int;
    let m = n + known(env.program_files).len();
    let k = m + known(env.program_files_x86).len();
    if root.len() > 0 {
        assert(b[0] == root[0]);
    }
    if env.program_files is Some {
        assert(b[n] == env.program_files->0@);
    }
    if env.program_files_x86 is Some {
        assert(b[m] == env.program_files_x86->0@);
    }
    if let Some(home) = env.home {
        assert(b[k] == home@ + "\\.ssh"@);
        assert(b[k + 1] == home@ + "\\.aws"@);
    }
}

/// A path or a reason is read as it is.
pub proof fn law_paths_and_reasons(s: String)
    ensures
        outcome(Ok(s)) == Ok::<Seq<char>, Seq<char>>(s@),
        outcome(Err(s)) == Err::<Seq<char>, Seq<char>>(s@),
{
}

} // verus!
