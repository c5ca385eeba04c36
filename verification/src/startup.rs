//! What the program does when it is started.
use vstd::prelude::*;

use crate::text;
use crate::text::{decimal_string, join3, same_text};
use crate::window;
use crate::window::new_instance_id;

verus! {

/// What the program was started with. The requests to read or to edit, which only a running window
/// can answer, are no more than noted.
pub struct StartArgs {
    pub id: Option<String>,
    pub file: Option<String>,
    pub file_pos: Option<String>,
    pub body: Option<String>,
    pub title: Option<String>,
    pub query: bool,
    pub grep: bool,
    pub lines: bool,
    pub delete: bool,
    pub insert: bool,
    pub replace: bool,
    pub list: bool,
    pub foreground: bool,
}

impl StartArgs {
    /// Something is asked for that only a running window can answer.
    pub open spec fn needs_instance(self) -> bool {
        self.query || self.grep || self.lines || self.delete || self.insert || self.replace
    }

    /// The file that is to be shown: the named one goes before the one that was merely given.
    pub open spec fn file_to_show(self) -> Option<Seq<char>> {
        if self.file is Some {
            text::content_of(self.file)
        } else {
            text::content_of(self.file_pos)
        }
    }

    /// Whether the document is to be read from the standard input.
    pub fn reads_stdin(&self) -> (b: bool)
        ensures
            b == (self.body matches Some(s) && s@ == "-"@),
    {
        match &self.body {
            Some(s) => same_text(s.as_str(), "-"),
            None => false,
        }
    }

    /// The file that is to be shown.
    pub fn initial_file(&self) -> (file: Option<String>)
        ensures
            text::content_of(file) == self.file_to_show(),
    {
        match &self.file {
            Some(f) => Some(f.clone()),
            None => match &self.file_pos {
                Some(f) => Some(f.clone()),
                None => None,
            },
        }
    }
}

/// The identifier of the first window: the one that was asked for, or else one of its own.
/// `file_id` is the identifier of the file that is to be shown.
pub open spec fn first_id(args: StartArgs, file_id: Option<Seq<char>>, n: u16) -> Seq<char> {
    match args.id {
        Some(id) => id@,
        None => window::instance_of(
            if args.body is Some {
                None
            } else {
                file_id
            },
            args.body is Some,
            n,
        ),
    }
}

/// The identifier of the first window is printed.
pub open spec fn is_announced(args: StartArgs) -> bool {
    args.id is None && args.body is Some
}

/// The identifier of the first window, and whether it is to be printed: where a text was given and
/// no identifier asked for, nobody would know it otherwise.
pub fn first_instance_id(args: &StartArgs, file_id: Option<&str>, n: u16) -> (r: (String, bool))
    ensures
        r.0@ == first_id(*args, text::content_of_str(file_id), n),
        r.1 == (args.id is None && args.body is Some),
        r.1 == is_announced(*args),
{
    match &args.id {
        Some(id) => (id.clone(), false),
        None => if args.body.is_some() {
            (new_instance_id(None, true, n), true)
        } else {
            (new_instance_id(file_id, false, n), false)
        },
    }
}

/// How far the start has come.
#[derive(Clone, Copy, Debug, PartialEq, Eq, Structural)]
pub enum StartEvent {
    /// The program was started.
    Started,
    /// The request was sent to the window that was asked for; whether it took it.
    Sent(bool),
    /// The document was handed to the process that runs already; whether it took it.
    Delegated(bool),
}

/// What is to be done next.
#[derive(Clone, Copy, Debug, PartialEq, Eq, Structural)]
pub enum StartAction {
    /// Send the request to the window that was asked for.
    SendToInstance,
    /// Hand the document to the process that runs already.
    DelegateToPrimary,
    /// Say that there is no such window, and end with the status two.
    FailNoInstance,
    /// List the windows, and end.
    ListInstances,
    /// Start the program anew in the background, and end.
    Daemonize,
    /// Go on.
    RunHere,
    /// End.
    Finish,
}

/// The program goes to the background: unless it is told not to, where it was started from a
/// terminal, and on macOS also where it has something to show.
pub open spec fn goes_to_background(args: StartArgs, macos: bool, terminal: bool) -> bool {
    !args.foreground && (terminal || macos && (args.body is Some || args.file is Some
        || args.file_pos is Some))
}

/// Whether the program goes to the background.
pub fn should_daemonize(args: &StartArgs, macos: bool, terminal: bool) -> (b: bool)
    ensures
        b == goes_to_background(*args, macos, terminal),
{
    !args.foreground && (terminal || macos && (args.body.is_some() || args.file.is_some()
        || args.file_pos.is_some()))
}

/// Here or in the background.
pub open spec fn launch(args: StartArgs, macos: bool, terminal: bool) -> StartAction {
    if goes_to_background(args, macos, terminal) {
        StartAction::Daemonize
    } else {
        StartAction::RunHere
    }
}

/// What follows where no window has taken the request.
pub open spec fn without_instance(args: StartArgs, macos: bool, terminal: bool) -> StartAction {
    if args.needs_instance() {
        StartAction::FailNoInstance
    } else if args.list {
        StartAction::ListInstances
    } else if args.id is None {
        StartAction::DelegateToPrimary
    } else {
        launch(args, macos, terminal)
    }
}

/// What is to be done next.
pub open spec fn next_action(args: StartArgs, event: StartEvent, macos: bool, terminal: bool) -> StartAction {
    match event {
        StartEvent::Started => if args.id is Some {
            StartAction::SendToInstance
        } else {
            without_instance(args, macos, terminal)
        },
        StartEvent::Sent(true) => StartAction::Finish,
        StartEvent::Sent(false) => without_instance(args, macos, terminal),
        StartEvent::Delegated(true) => StartAction::Finish,
        StartEvent::Delegated(false) => launch(args, macos, terminal),
    }
}

/// What is to be done next, after `event`.
pub fn next_step(args: &StartArgs, event: StartEvent, macos: bool, terminal: bool) -> (action:
    StartAction)
    ensures
        action == next_action(*args, event, macos, terminal),
{
    let unanswered = match event {
        StartEvent::Started => {
            if args.id.is_some() {
                return StartAction::SendToInstance;
            }
            true
        },
        StartEvent::Sent(ok) => {
            if ok {
                return StartAction::Finish;
            }
            true
        },
        StartEvent::Delegated(ok) => {
            if ok {
                return StartAction::Finish;
            }
            false
        },
    };
    if unanswered {
        if args.query || args.grep || args.lines || args.delete || args.insert || args.replace {
            return StartAction::FailNoInstance;
        }
        if args.list {
            return StartAction::ListInstances;
        }
        if args.id.is_none() {
            return StartAction::DelegateToPrimary;
        }
    }
    if should_daemonize(args, macos, terminal) {
        StartAction::Daemonize
    } else {
        StartAction::RunHere
    }
}

/// The start comes to an end: at most one request is sent, then at most one document handed over,
/// and only one of the two.
pub proof fn law_start_ends(args: StartArgs, ok: bool, macos: bool, terminal: bool)
    ensures
        next_action(args, StartEvent::Started, macos, terminal) == StartAction::SendToInstance
            <==> args.id is Some,
        !(next_action(args, StartEvent::Sent(ok), macos, terminal) is SendToInstance),
        !(next_action(args, StartEvent::Delegated(ok), macos, terminal) is SendToInstance),
        !(next_action(args, StartEvent::Delegated(ok), macos, terminal) is DelegateToPrimary),
        args.id is Some ==> !(next_action(
            args,
            StartEvent::Sent(ok),
            macos,
            terminal,
        ) is DelegateToPrimary),
{
}

/// What only a running window can answer is never answered by opening a new one.
pub proof fn law_requests_open_no_window(
    args: StartArgs,
    event: StartEvent,
    macos: bool,
    terminal: bool,
)
    requires
        args.needs_instance(),
        !(event is Delegated),
    ensures
        !(next_action(args, event, macos, terminal) is RunHere),
        !(next_action(args, event, macos, terminal) is Daemonize),
        !(next_action(args, event, macos, terminal) is DelegateToPrimary),
{
}

/// What the program is started with in the background: the same, told to stay where it is, and the
/// identifier, where none was asked for.
pub open spec fn background_args(given: Seq<Seq<char>>, asked: bool, id: Seq<char>) -> Seq<Seq<char>> {
    let stay = given.push("--_foreground"@);
    if asked {
        stay
    } else {
        stay.push("--id"@).push(id)
    }
}

/// What the program is started with in the background. `given` is what it was started with itself,
/// `asked` whether an identifier was asked for.
pub fn child_args(given: Vec<String>, asked: bool, id: &str) -> (args: Vec<String>)
    ensures
        text::contents(args@) == background_args(text::contents(given@), asked, id@),
{
    let ghost before = text::contents(given@);
    let mut args = given;
    args.push("--_foreground".to_owned());
    if !asked {
        args.push("--id".to_owned());
        args.push(id.to_owned());
    }
    assert(text::contents(args@) =~= background_args(before, asked, id@));
    args
}

/// A directory above the program, or the program itself, with its extension.
pub struct Ancestor {
    pub path: String,
    pub extension: Option<String>,
}

/// An application bundle of macOS.
pub open spec fn is_bundle(a: Ancestor) -> bool {
    a.extension matches Some(e) && e@ == "app"@
}

/// The innermost bundle around the program: the first among it and the directories above it, from
/// the inside out.
pub fn find_app_bundle(ancestors: &Vec<Ancestor>) -> (bundle: Option<String>)
    ensures
        match bundle {
            Some(path) => exists|i: int|
                0 <= i < ancestors.len() && is_bundle(#[trigger] ancestors@[i]) && path@
                    == ancestors@[i].path@ && forall|j: int|
                    0 <= j < i ==> !is_bundle(#[trigger] ancestors@[j]),
            None => forall|i: int| 0 <= i < ancestors.len() ==> !is_bundle(#[trigger] ancestors@[i]),
        },
{
    let mut i: usize = 0;
    while i < ancestors.len()
        invariant
            i <= ancestors.len(),
            forall|j: int| 0 <= j < i ==> !is_bundle(#[trigger] ancestors@[j]),
        decreases ancestors.len() - i,
    {
        if let Some(e) = &ancestors[i].extension {
            if same_text(e.as_str(), "app") {
                assert(is_bundle(ancestors@[i as int]));
                return Some(ancestors[i].path.clone());
            }
        }
        i += 1;
    }
    None
}

/// The program is started in the background through its bundle.
pub open spec fn goes_through_bundle(macos: bool, stdin_read: bool) -> bool {
    macos && !stdin_read
}

/// The program stays when an end is asked for.
pub open spec fn stays_on(code: Option<i32>) -> bool {
    code is None
}

/// The bundle through which the program is started in the background: none where it is not macOS,
/// or where the document came from the standard input, which a bundle does not hand on.
pub fn background_bundle(macos: bool, stdin_read: bool, bundle: Option<String>) -> (through: Option<
    String,
>)
    ensures
        through == if macos && !stdin_read {
            bundle
        } else {
            None
        },
        through is Some == (bundle is Some && goes_through_bundle(macos, stdin_read)),
{
    if macos && !stdin_read {
        bundle
    } else {
        None
    }
}

/// What the file beside a window's socket says: the port of the server, and the token that it asks
/// for.
pub fn port_file_content(port: u16, token: &str) -> (content: String)
    ensures
        content@ == text::decimal(port as nat) + ":"@ + token@,
{
    let digits = decimal_string(port as u64);
    join3(digits.as_str(), ":", token)
}

/// Whether the program stays when an end is asked for: without a status it was only the last
/// window that closed.
pub fn stays_running(code: Option<i32>) -> (stay: bool)
    ensures
        stay == (code is None),
        stay == stays_on(code),
{
    code.is_none()
}

/// The named file is shown before the one that was merely given.
pub proof fn law_the_named_file_goes_first(args: StartArgs)
    ensures
        args.file matches Some(f) ==> args.file_to_show() == Some(f@),
        args.file is None ==> (args.file_pos matches Some(f) ==> args.file_to_show() == Some(f@)),
        args.file is None && args.file_pos is None ==> args.file_to_show() is None,
        args.needs_instance() <==> args.query || args.grep || args.lines || args.delete
            || args.insert || args.replace,
{
}

/// The first window gets the identifier that was asked for; else a text that was given gets one of
/// its own, a file that of the file, and an empty window one of its own.
pub proof fn law_the_first_identifier(args: StartArgs, file_id: Seq<char>, n: u16)
    ensures
        args.id matches Some(id) ==> first_id(args, Some(file_id), n) == id@ && first_id(
            args,
            None,
            n,
        ) == id@,
        args.id is None && args.body is Some ==> first_id(args, Some(file_id), n) == "body-"@
            + text::hex(n as nat, 4),
        args.id is None && args.body is None ==> first_id(args, Some(file_id), n) == file_id,
        args.id is None && args.body is None ==> first_id(args, None, n) == "gui-"@ + text::hex(
            n as nat,
            4,
        ),
{
}

/// Where the program runs: in the foreground if it is told to; else in the background, where it was
/// started from a terminal, and on macOS where it has something to show.
pub proof fn law_where_the_program_runs(args: StartArgs, macos: bool, terminal: bool)
    ensures
        ({
            let shows = args.body is Some || args.file is Some || args.file_pos is Some;
            let last = next_action(args, StartEvent::Delegated(false), macos, terminal);
            &&& last == StartAction::RunHere || last == StartAction::Daemonize
            &&& args.foreground ==> last == StartAction::RunHere
            &&& !args.foreground && terminal ==> last == StartAction::Daemonize
            &&& !args.foreground && !terminal && macos ==> (last == StartAction::Daemonize
                <==> shows)
            &&& !args.foreground && !terminal && !macos ==> last == StartAction::RunHere
            &&& goes_to_background(args, macos, terminal) <==> last == StartAction::Daemonize
        }),
{
}

/// What is done at each step. A request that was taken ends the program. Where no window takes it,
/// what only a window can answer fails; a list is given where one is asked for; and without an
/// identifier the document is handed to the process that runs already.
pub proof fn law_what_is_done_next(
    args: StartArgs,
    event: StartEvent,
    macos: bool,
    terminal: bool,
)
    ensures
        ({
            let action = next_action(args, event, macos, terminal);
            let unanswered = event == StartEvent::Sent(false) || event == StartEvent::Started
                && args.id is None;
            &&& event == StartEvent::Sent(true) || event == StartEvent::Delegated(true) <==> action
                == StartAction::Finish
            &&& event == StartEvent::Started && args.id is Some <==> action
                == StartAction::SendToInstance
            &&& unanswered && args.needs_instance() <==> action == StartAction::FailNoInstance
            &&& unanswered && !args.needs_instance() && args.list <==> action
                == StartAction::ListInstances
            &&& unanswered && !args.needs_instance() && !args.list && args.id is None <==> action
                == StartAction::DelegateToPrimary
            &&& unanswered && !args.needs_instance() && !args.list && args.id is Some ==> action
                == next_action(args, StartEvent::Delegated(false), macos, terminal)
        }),
{
}

/// In the background the program gets all that it was started with, in order, then the word to stay
/// where it is, and the identifier only where none was asked for.
pub proof fn law_what_is_handed_on(given: Seq<Seq<char>>, id: Seq<char>)
    ensures
        background_args(given, true, id) == given + seq!["--_foreground"@],
        background_args(given, false, id) == given + seq!["--_foreground"@, "--id"@, id],
{
    assert(background_args(given, true, id) =~= given + seq!["--_foreground"@]);
    assert(background_args(given, false, id) =~= given + seq!["--_foreground"@, "--id"@, id]);
}

/// A bundle is what has the extension of applications.
pub proof fn law_bundles_by_their_extension(path: String, e: String)
    ensures
        is_bundle(Ancestor { path, extension: Some(e) }) <==> e@ == seq!['a', 'p', 'p'],
        !is_bundle(Ancestor { path, extension: None }),
{
    reveal_strlit("app");
    assert("app"@ =~= seq!['a', 'p', 'p']);
}

/// An identifier is printed exactly where it was made for a text that was given, so that nobody
/// could know it.
pub proof fn law_unknown_identifiers_are_printed(args: StartArgs, file_id: Option<Seq<char>>, n: u16)
    ensures
        is_announced(args) ==> first_id(args, file_id, n) == "body-"@ + text::hex(n as nat, 4),
        args.id is Some ==> !is_announced(args),
        args.body is None ==> !is_announced(args),
        args.id is None && args.body is Some ==> is_announced(args),
{
}

/// A bundle is used on macOS only, and never where the document came from the standard input. The
/// program stays where no status is given, and ends with every status.
pub proof fn law_when_bundles_are_used_and_the_program_stays(macos: bool, code: i32)
    ensures
        goes_through_bundle(true, false),
        !goes_through_bundle(false, false),
        !goes_through_bundle(macos, true),
        stays_on(None),
        !stays_on(Some(code)),
{
}

} // verus!
