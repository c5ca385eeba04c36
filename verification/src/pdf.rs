//! How a document is printed to a PDF file with a browser.
use vstd::prelude::*;

use crate::text;
use crate::text::{contains_text, decimal_string, join, join3};

verus! {

/// The system that the program runs on.
#[derive(Clone, Copy, Debug, PartialEq, Eq, Structural)]
pub enum Platform {
    MacOs,
    Windows,
    Other,
}

/// Where a browser may be, the preferred one first. Elsewhere than on macOS and Windows none is
/// looked for.
pub open spec fn candidates(platform: Platform) -> Seq<Seq<char>> {
    match platform {
        Platform::MacOs => seq![
            "/Applications/Microsoft Edge.app/Contents/MacOS/Microsoft Edge"@,
            "/Applications/Google Chrome.app/Contents/MacOS/Google Chrome"@,
            "/Applications/Chromium.app/Contents/MacOS/Chromium"@,
            "/Applications/Brave Browser.app/Contents/MacOS/Brave Browser"@,
        ],
        Platform::Windows => seq![
            "C:\\Program Files (x86)\\Microsoft\\Edge\\Application\\msedge.exe"@,
            "C:\\Program Files\\Microsoft\\Edge\\Application\\msedge.exe"@,
            "C:\\Program Files\\Google\\Chrome\\Application\\chrome.exe"@,
            "C:\\Program Files (x86)\\Google\\Chrome\\Application\\chrome.exe"@,
        ],
        Platform::Other => Seq::empty(),
    }
}

/// Where a browser may be, the preferred one first.
pub fn browser_candidates(platform: Platform) -> (paths: Vec<String>)
    ensures
        text::contents(paths@) == candidates(platform),
{
    let mut paths: Vec<String> = Vec::new();
    match platform {
        Platform::MacOs => {
            paths.push("/Applications/Microsoft Edge.app/Contents/MacOS/Microsoft Edge".to_owned());
            paths.push("/Applications/Google Chrome.app/Contents/MacOS/Google Chrome".to_owned());
            paths.push("/Applications/Chromium.app/Contents/MacOS/Chromium".to_owned());
            paths.push("/Applications/Brave Browser.app/Contents/MacOS/Brave Browser".to_owned());
        },
        Platform::Windows => {
            paths.push(
                "C:\\Program Files (x86)\\Microsoft\\Edge\\Application\\msedge.exe".to_owned(),
            );
            paths.push("C:\\Program Files\\Microsoft\\Edge\\Application\\msedge.exe".to_owned());
            paths.push("C:\\Program Files\\Google\\Chrome\\Application\\chrome.exe".to_owned());
            paths.push(
                "C:\\Program Files (x86)\\Google\\Chrome\\Application\\chrome.exe".to_owned(),
            );
        },
        Platform::Other => {},
    }
    assert(text::contents(paths@) =~= candidates(platform));
    paths
}

/// The first of some places at which there is something: `present` says of each whether there is.
pub open spec fn first_present(paths: Seq<Seq<char>>, present: Seq<bool>) -> Option<Seq<char>>
    decreases paths.len(),
{
    if paths.len() == 0 || present.len() == 0 {
        None
    } else if present[0] {
        Some(paths[0])
    } else {
        first_present(paths.skip(1), present.skip(1))
    }
}

/// The browser that is taken: the first of the candidates that is there.
pub fn find_browser(platform: Platform, present: &Vec<bool>) -> (browser: Option<String>)
    ensures
        text::content_of(browser) == first_present(candidates(platform), present@),
{
    let paths = browser_candidates(platform);
    let ghost all = candidates(platform);
    let mut i: usize = 0;
    assert(all.skip(0) =~= all);
    assert(present@.skip(0) =~= present@);
    while i < paths.len() && i < present.len()
        invariant
            i <= paths.len(),
            i <= present.len(),
            all == candidates(platform),
            text::contents(paths@) == all,
            first_present(all, present@) == first_present(
                all.skip(i as int),
                present@.skip(i as int),
            ),
        decreases paths.len() - i,
    {
        assert(all[i as int] == paths@[i as int]@);
        assert(all.skip(i as int).skip(1) =~= all.skip(i + 1));
        assert(present@.skip(i as int).skip(1) =~= present@.skip(i + 1));
        if present[i] {
            return Some(paths[i].clone());
        }
        i += 1;
    }
    None
}

/// A PDF file can be made: with a browser, and on macOS always, for there is a helper.
pub open spec fn can_print(platform: Platform, browser: bool) -> bool {
    platform == Platform::MacOs || browser
}

/// Whether a PDF file can be made: on macOS always, for there is a helper.
pub fn has_pdf_browser(platform: Platform, browser: &Option<String>) -> (b: bool)
    ensures
        b == (platform == Platform::MacOs || browser is Some),
        b == can_print(platform, browser is Some),
{
    match platform {
        Platform::MacOs => true,
        _ => browser.is_some(),
    }
}

/// What is told where there is no browser and no helper.
pub fn no_browser_message() -> (s: String)
    ensures
        s@ == "No Chromium-based browser found. Please install Chrome or Edge."@,
{
    "No Chromium-based browser found. Please install Chrome or Edge.".to_owned()
}

/// Which switch leaves out headers and footers.
#[derive(Clone, Copy, Debug, PartialEq, Eq, Structural)]
pub enum HeaderSwitch {
    /// The one of newer browsers.
    Newer,
    /// The one of older browsers.
    Older,
}

/// What the browser is started with.
pub open spec fn browser_call(
    switch: HeaderSwitch,
    profile_dir: Seq<char>,
    output: Seq<char>,
    url: Seq<char>,
) -> Seq<Seq<char>> {
    seq![
        "--headless=old"@,
        "--disable-gpu"@,
        match switch {
            HeaderSwitch::Newer => "--no-pdf-header-footer"@,
            HeaderSwitch::Older => "--print-to-pdf-no-header"@,
        },
        "--user-data-dir="@ + profile_dir,
        "--print-to-pdf="@ + output,
        url,
    ]
}

/// What the browser is started with.
pub fn browser_args(switch: HeaderSwitch, profile_dir: &str, output: &str, url: &str) -> (args: Vec<
    String,
>)
    ensures
        text::contents(args@) == browser_call(switch, profile_dir@, output@, url@),
{
    let mut args: Vec<String> = Vec::new();
    args.push("--headless=old".to_owned());
    args.push("--disable-gpu".to_owned());
    args.push(
        match switch {
            HeaderSwitch::Newer => "--no-pdf-header-footer".to_owned(),
            HeaderSwitch::Older => "--print-to-pdf-no-header".to_owned(),
        },
    );
    args.push(join("--user-data-dir=", profile_dir));
    args.push(join("--print-to-pdf=", output));
    args.push(url.to_owned());
    assert(text::contents(args@) =~= browser_call(switch, profile_dir@, output@, url@));
    args
}

/// The name of the directory in which a browser keeps its settings: one for each call.
pub open spec fn profile(pid: u32, seq: u64) -> Seq<char> {
    "tsumugi-pdf-profile-"@ + text::decimal(pid as nat) + "-"@ + text::decimal(seq as nat)
}

/// The name of the directory in which a browser keeps its settings.
pub fn profile_name(pid: u32, seq: u64) -> (name: String)
    ensures
        name@ == profile(pid, seq),
{
    let process = decimal_string(pid as u64);
    let mut name: String = join3("tsumugi-pdf-profile-", process.as_str(), "-");
    let number = decimal_string(seq);
    name.append(number.as_str());
    name
}

/// Two calls of one process do not share a directory.
pub proof fn law_profiles_are_told_apart(pid: u32, a: u64, b: u64)
    requires
        profile(pid, a) == profile(pid, b),
    ensures
        a == b,
{
    let start = "tsumugi-pdf-profile-"@ + text::decimal(pid as nat) + "-"@;
    let n = start.len() as int;
    assert(profile(pid, a).skip(n) =~= text::decimal(a as nat));
    assert(profile(pid, b).skip(n) =~= text::decimal(b as nat));
    text::law_decimal_tells_numbers_apart(a as nat, b as nat);
}

/// Where the browser finds the document.
pub open spec fn address(port: u16, token: Seq<char>) -> Seq<char> {
    "http://127.0.0.1:"@ + text::decimal(port as nat) + "/pdf-content/"@ + token
}

/// Where the browser finds the document.
pub fn document_url(port: u16, token: &str) -> (url: String)
    ensures
        url@ == "http://127.0.0.1:"@ + text::decimal(port as nat) + "/pdf-content/"@ + token@,
        url@ == address(port, token@),
{
    let digits = decimal_string(port as u64);
    let mut url: String = join3("http://127.0.0.1:", digits.as_str(), "/pdf-content/");
    url.append(token);
    url
}

/// The browser has complained that it could not load the document.
pub open spec fn network_failed(stderr: Seq<char>) -> bool {
    text::has_part(stderr, "ERR_"@) || text::has_part(stderr, "net::"@)
}

/// What follows on a call of the browser.
#[derive(Debug)]
pub enum PdfStep {
    /// The file is there.
    Done,
    /// Call the browser again, with the older switch.
    Retry,
    /// There is no file, for this reason.
    Fail(String),
}

/// What follows on a call of the browser: it has failed where it complained of the network, or
/// where no file came of the second call either.
pub open spec fn step_follows(
    step: PdfStep,
    switch: HeaderSwitch,
    stderr: Seq<char>,
    written: bool,
) -> bool {
    if network_failed(stderr) {
        step matches PdfStep::Fail(why) && why@ == "PDF generation failed: "@ + stderr
    } else if written {
        step is Done
    } else {
        match switch {
            HeaderSwitch::Newer => step is Retry,
            HeaderSwitch::Older => step matches PdfStep::Fail(why) && why@
                == "PDF generation failed: "@ + stderr,
        }
    }
}

/// What follows on a call of the browser, from what it complained of and whether the file is there.
pub fn after_browser(switch: HeaderSwitch, stderr: &str, written: bool) -> (step: PdfStep)
    ensures
        step_follows(step, switch, stderr@, written),
{
    if contains_text(stderr, "ERR_") || contains_text(stderr, "net::") {
        return PdfStep::Fail(join("PDF generation failed: ", stderr));
    }
    if written {
        return PdfStep::Done;
    }
    match switch {
        HeaderSwitch::Newer => PdfStep::Retry,
        HeaderSwitch::Older => PdfStep::Fail(join("PDF generation failed: ", stderr)),
    }
}

/// After the second call there is no third, and success means that the file is there.
pub proof fn law_browser_is_called_at_most_twice(
    step: PdfStep,
    switch: HeaderSwitch,
    stderr: Seq<char>,
    written: bool,
)
    requires
        step_follows(step, switch, stderr, written),
    ensures
        switch == HeaderSwitch::Older ==> !(step is Retry),
        step is Done ==> written && !network_failed(stderr),
{
}

/// Whether the browser could be started at all, and else what is told.
pub fn launch_failed(why: &str) -> (s: String)
    ensures
        s@ == "Failed to launch browser: "@ + why@,
{
    join("Failed to launch browser: ", why)
}

/// What comes of a call of the helper, from whether it succeeded and what it complained of.
pub open spec fn helper_result(success: bool, stderr: Seq<char>) -> Result<(), Seq<char>> {
    if success {
        Ok(())
    } else {
        Err("PDF generation failed (sidecar): "@ + stderr)
    }
}

/// What comes of a call of the helper.
pub fn after_helper(success: bool, stderr: &str) -> (r: Result<(), String>)
    ensures
        match helper_result(success, stderr@) {
            Ok(_) => r is Ok,
            Err(why) => r matches Err(s) && s@ == why,
        },
{
    if success {
        Ok(())
    } else {
        Err(join("PDF generation failed (sidecar): ", stderr))
    }
}

/// The browser that is taken is there, and none that is preferred to it is; where there is none,
/// none of the candidates is there.
pub proof fn law_the_first_browser_is_taken(paths: Seq<Seq<char>>, present: Seq<bool>, i: int)
    requires
        0 <= i <= paths.len(),
        i <= present.len(),
        forall|j: int| 0 <= j < i ==> !(#[trigger] present[j]),
        i < paths.len() && i < present.len() ==> present[i],
    ensures
        first_present(paths, present) == if i < paths.len() && i < present.len() {
            Some(paths[i])
        } else {
            None
        },
    decreases i,
{
    if i > 0 {
        assert(!present[0]);
        assert forall|j: int| 0 <= j < i - 1 implies !(#[trigger] present.skip(1)[j]) by {
            assert(!present[j + 1]);
        }
        law_the_first_browser_is_taken(paths.skip(1), present.skip(1), i - 1);
    }
}

/// The browser prints what it finds at the address to the file, with settings of its own; the two
/// calls differ in the switch against headers only.
pub proof fn law_how_the_browser_is_called(
    profile_dir: Seq<char>,
    output: Seq<char>,
    url: Seq<char>,
)
    ensures
        ({
            let newer = browser_call(HeaderSwitch::Newer, profile_dir, output, url);
            let older = browser_call(HeaderSwitch::Older, profile_dir, output, url);
            &&& newer.len() == 6
            &&& newer[0] == "--headless=old"@ && newer[1] == "--disable-gpu"@
            &&& newer[2] == "--no-pdf-header-footer"@ && older[2] == "--print-to-pdf-no-header"@
            &&& newer[3] == "--user-data-dir="@ + profile_dir
            &&& newer[4] == "--print-to-pdf="@ + output
            &&& newer[5] == url
            &&& older == newer.update(2, older[2])
        }),
{
    let newer = browser_call(HeaderSwitch::Newer, profile_dir, output, url);
    let older = browser_call(HeaderSwitch::Older, profile_dir, output, url);
    assert(older =~= newer.update(2, older[2]));
}

/// The places at which browsers are looked for, the preferred one first.
pub proof fn law_where_browsers_are_looked_for()
    ensures
        candidates(Platform::Other).len() == 0,
        candidates(Platform::MacOs).len() == 4,
        candidates(Platform::MacOs)[0]
            == "/Applications/Microsoft Edge.app/Contents/MacOS/Microsoft Edge"@,
        candidates(Platform::MacOs)[1]
            == "/Applications/Google Chrome.app/Contents/MacOS/Google Chrome"@,
        candidates(Platform::MacOs)[2] == "/Applications/Chromium.app/Contents/MacOS/Chromium"@,
        candidates(Platform::MacOs)[3]
            == "/Applications/Brave Browser.app/Contents/MacOS/Brave Browser"@,
        candidates(Platform::Windows).len() == 4,
        candidates(Platform::Windows)[0]
            == "C:\\Program Files (x86)\\Microsoft\\Edge\\Application\\msedge.exe"@,
        candidates(Platform::Windows)[1]
            == "C:\\Program Files\\Microsoft\\Edge\\Application\\msedge.exe"@,
        candidates(Platform::Windows)[2]
            == "C:\\Program Files\\Google\\Chrome\\Application\\chrome.exe"@,
        candidates(Platform::Windows)[3]
            == "C:\\Program Files (x86)\\Google\\Chrome\\Application\\chrome.exe"@,
{
}

/// What follows on a call of the browser. A complaint about the network fails it at once; else it
/// is done where the file is there; and else the older switch is tried, once.
pub proof fn law_what_follows_on_a_call(
    step: PdfStep,
    switch: HeaderSwitch,
    before: Seq<char>,
    after: Seq<char>,
    stderr: Seq<char>,
    written: bool,
)
    requires
        step_follows(step, switch, stderr, written),
    ensures
        stderr == before + "ERR_"@ + after || stderr == before + "net::"@ + after ==> step is Fail,
        step matches PdfStep::Fail(why) ==> why@ == "PDF generation failed: "@ + stderr,
        step is Retry ==> switch == HeaderSwitch::Newer && !written,
        !text::has_part(stderr, "ERR_"@) && !text::has_part(stderr, "net::"@) && written
            ==> step is Done,
        !text::has_part(stderr, "ERR_"@) && !text::has_part(stderr, "net::"@) && !written && switch
            == HeaderSwitch::Newer ==> step is Retry,
        !written && switch == HeaderSwitch::Older ==> step is Fail,
{
    text::law_parts_stand_within(before, "ERR_"@, after, stderr);
    text::law_parts_stand_within(before, "net::"@, after, stderr);
}

/// A profile is named after the program, the process and the call.
pub proof fn law_names_of_profiles(pid: u32, n: u64)
    ensures
        profile(pid, n) == "tsumugi-pdf-profile-"@ + text::decimal(pid as nat) + seq!['-']
            + text::decimal(n as nat),
{
    reveal_strlit("-");
    assert("-"@ =~= seq!['-']);
}

/// What comes of the helper: it has succeeded, or what it complained of is told.
pub proof fn law_what_comes_of_the_helper(stderr: Seq<char>)
    ensures
        helper_result(true, stderr) is Ok,
        helper_result(false, stderr) == Err::<(), Seq<char>>(
            "PDF generation failed (sidecar): "@ + stderr,
        ),
{
}

/// Elsewhere than on macOS a PDF file can be made exactly where a browser is there, and on macOS
/// always.
pub proof fn law_where_printing_works(browser: bool)
    ensures
        can_print(Platform::MacOs, browser),
        can_print(Platform::Windows, browser) == browser,
        can_print(Platform::Other, browser) == browser,
{
}

/// The address of a document is on this machine, and two documents that one server offers under
/// different tokens have different addresses.
pub proof fn law_addresses_are_told_apart(port: u16, a: Seq<char>, b: Seq<char>)
    ensures
        text::has_prefix(address(port, a), "http://127.0.0.1:"@),
        address(port, a).skip(address(port, a).len() - a.len()) == a,
        address(port, a) == address(port, b) ==> a == b,
{
    let start = "http://127.0.0.1:"@ + text::decimal(port as nat) + "/pdf-content/"@;
    let rest = text::decimal(port as nat) + "/pdf-content/"@ + a;
    assert(address(port, a) =~= "http://127.0.0.1:"@ + rest);
    text::law_prefixes_stand_first(address(port, a), "http://127.0.0.1:"@, rest);
    assert(address(port, a).skip(start.len() as int) =~= a);
    assert(address(port, b).skip(start.len() as int) =~= b);
}

} // verus!
