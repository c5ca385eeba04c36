use tsumugi::paths::{
    blocked, document_path, document_text, file_to_id, find_prefix, history_file_name,
    history_of_file, hyphenated, is_network_path, normalize_path, path_hash, temporary_name,
    validate_path, Resolution, Surroundings,
};
use tsumugi::pdf::{
    after_browser, after_helper, browser_args, browser_candidates, document_url, find_browser,
    has_pdf_browser, launch_failed, no_browser_message, profile_name, HeaderSwitch, PdfStep,
    Platform,
};
use tsumugi::startup::{
    background_bundle, child_args, find_app_bundle, first_instance_id, next_step,
    port_file_content, should_daemonize, stays_running, Ancestor, StartAction, StartArgs,
    StartEvent,
};
use tsumugi::window::{
    close_step, document_label, document_title, first_window, is_document_window,
    new_instance_id, number_of, rand_u16, window_title, Answer, CloseStep, FileText, OpenPlan,
    WindowState, WindowStates,
};

fn unix(home: Option<&str>) -> Surroundings {
    Surroundings {
        windows: false,
        system_root: None,
        windir: None,
        program_files: None,
        program_files_x86: None,
        home: home.map(|h| h.to_string()),
    }
}

fn windows() -> Surroundings {
    Surroundings {
        windows: true,
        system_root: None,
        windir: Some("C:\\Windows".to_string()),
        program_files: Some("C:\\Program Files".to_string()),
        program_files_x86: None,
        home: Some("C:\\Users\\Me".to_string()),
    }
}

fn canonical(path: &str) -> Resolution {
    Resolution::Canonical(path.to_string())
}

fn denied(path: &str, env: &Surroundings) -> Option<String> {
    validate_path("x", canonical(path), env).err()
}

#[test]
fn hash_of_a_path_is_that_of_its_canonical_form() {
    assert_eq!(path_hash("a", None), "af63dc4c8601ec8c");
    assert_eq!(path_hash("anything", Some("a")), "af63dc4c8601ec8c");
    assert_eq!(path_hash("../a", Some("/x/a")), path_hash("./b/../a", Some("/x/a")));
    assert_eq!(path_hash("あ", None).len(), 16);
}

#[test]
fn network_paths_are_told_apart() {
    assert!(is_network_path("\\\\server\\share"));
    assert!(is_network_path("//server/share"));
    assert!(is_network_path("\\\\?\\UNC\\server"));
    assert!(is_network_path("/Volumes/disk"));
    assert!(!is_network_path("/home/me"));
    assert!(!is_network_path("C:\\a"));
    assert!(!is_network_path(""));
}

#[test]
fn plain_paths_stay_as_they_are() {
    assert_eq!(normalize_path("/a/b.md"), "/a/b.md");
    let verbatim = normalize_path("\\\\?\\C:\\a.md");
    assert!(verbatim == "\\\\?\\C:\\a.md" || verbatim == "C:\\a.md");
    assert_eq!(document_path("b.md", Some("/a/b.md")), "/a/b.md");
    assert_eq!(document_path("b.md", None), "b.md");
}

#[test]
fn paths_that_cannot_be_resolved_are_refused() {
    let env = unix(None);
    assert_eq!(
        validate_path("a\0b", canonical("/a"), &env),
        Err("Invalid path".to_string())
    );
    assert_eq!(validate_path("", Resolution::NoParent, &env), Err("Invalid path".to_string()));
    assert_eq!(
        validate_path("x/y", Resolution::ParentFailed("gone".to_string()), &env),
        Err("Invalid path: gone".to_string())
    );
    let valid = validate_path("y", canonical("/x/y"), &env);
    assert_eq!(valid, Ok("/x/y".to_string()));
    assert_eq!(validate_path("/x/y", canonical("/x/y"), &env), valid);
}

#[test]
fn system_directories_are_denied() {
    let env = unix(Some("/home/me"));
    assert_eq!(denied("/etc/passwd", &env), Some("Access denied: /etc".to_string()));
    assert_eq!(denied("/private/etc/x", &env), Some("Access denied: /private/etc".to_string()));
    assert_eq!(denied("/usr/x", &env), Some("Access denied: /usr".to_string()));
    assert_eq!(denied("/bin/sh", &env), Some("Access denied: /bin".to_string()));
    assert_eq!(denied("/sbin/x", &env), Some("Access denied: /sbin".to_string()));
    assert_eq!(denied("/System/x", &env), Some("Access denied: /System".to_string()));
    assert_eq!(
        denied("/home/me/.ssh/id", &env),
        Some("Access denied: /home/me/.ssh".to_string())
    );
    assert_eq!(denied("/home/me/.aws", &env), Some("Access denied: /home/me/.aws".to_string()));
    assert_eq!(
        denied("/home/me/.gnupg/x", &env),
        Some("Access denied: /home/me/.gnupg".to_string())
    );
    assert_eq!(denied("/home/me/notes.md", &env), None);
    assert_eq!(denied("/ETC/passwd", &env), None);
    assert_eq!(blocked(&unix(None)).len(), 6);
}

#[test]
fn case_does_not_matter_on_windows() {
    let env = windows();
    assert_eq!(
        denied("c:\\windows\\system32\\x", &env),
        Some("Access denied: C:\\Windows".to_string())
    );
    assert_eq!(
        denied("C:\\PROGRAM FILES\\x", &env),
        Some("Access denied: C:\\Program Files".to_string())
    );
    assert_eq!(
        denied("C:\\users\\me\\.SSH\\id", &env),
        Some("Access denied: C:\\Users\\Me\\.ssh".to_string())
    );
    assert_eq!(denied("C:\\Users\\Me\\a.md", &env), None);
    assert_eq!(denied("/etc/passwd", &env), None);
    let both = Surroundings { system_root: Some("D:\\Win".to_string()), ..windows() };
    assert_eq!(
        blocked(&both),
        vec!["D:\\Win", "C:\\Program Files", "C:\\Users\\Me\\.ssh", "C:\\Users\\Me\\.aws"]
    );
}

#[test]
fn first_prefix_is_found() {
    let prefixes = vec!["b".to_string(), "ab".to_string(), "a".to_string()];
    assert_eq!(find_prefix("abc", &prefixes), Some(1));
    assert_eq!(find_prefix("ac", &prefixes), Some(2));
    assert_eq!(find_prefix("c", &prefixes), None);
}

#[test]
fn byte_order_mark_is_dropped_once() {
    assert_eq!(document_text("\u{feff}a"), "a");
    assert_eq!(document_text("\u{feff}\u{feff}"), "\u{feff}");
    assert_eq!(document_text("a\u{feff}"), "a\u{feff}");
    assert_eq!(document_text(""), "");
}

#[test]
fn names_of_files() {
    assert_eq!(temporary_name(Some("a.md"), 42), ".a.md.42.tmp");
    assert_eq!(temporary_name(None, 7), ".file.7.tmp");
    assert_eq!(history_file_name("abc"), "abc.jsonl");
    assert_eq!(history_of_file("abc.jsonl"), Some("abc".to_string()));
    assert_eq!(history_of_file("a.b.jsonl"), Some("a.b".to_string()));
    assert_eq!(history_of_file(".jsonl"), None);
    assert_eq!(history_of_file("index.json"), None);
    assert_eq!(history_of_file("abcjsonl"), None);
}

#[test]
fn identifier_of_a_file_ends_in_its_hash() {
    let id = file_to_id(Some("My Notes.MD"), "a", None);
    assert_eq!(id, "file-my-notes-md-af63dc4c8601ec8c");
    assert_eq!(file_to_id(None, "x", Some("a")), "file-unknown-af63dc4c8601ec8c");
    assert!(id.ends_with(&path_hash("a", None)));
    assert_eq!(hyphenated("a.b c"), "a-b-c");
}

#[test]
fn labels_and_identifiers() {
    assert_eq!(document_label(0xab), "doc-00ab");
    assert_ne!(document_label(1), document_label(2));
    assert!(is_document_window(&document_label(1)));
    assert_eq!(new_instance_id(Some("file-x"), true, 1), "file-x");
    assert_eq!(new_instance_id(None, true, 0xffff), "body-ffff");
    assert_eq!(new_instance_id(None, false, 1), "gui-0001");
    assert_eq!(number_of(0x34, 0x12), 0x1234);
    let numbers: Vec<u16> = (0..64).map(|_| rand_u16().expect("a random number")).collect();
    assert!(numbers.iter().any(|n| *n != numbers[0]));
}

#[test]
fn document_windows() {
    assert!(is_document_window("main"));
    assert!(is_document_window("doc-1"));
    assert!(is_document_window("main-home-2"));
    assert!(!is_document_window("about"));
    assert!(!is_document_window("main-other"));
}

fn file(path: &str, text: Result<&str, &str>) -> Option<FileText> {
    Some(FileText {
        path: path.to_string(),
        stem: Some("name".to_string()),
        text: text.map(|t| t.to_string()).map_err(|e| e.to_string()),
    })
}

#[test]
fn window_opens_with_a_file() {
    let mut states = WindowStates::new();
    let state = states
        .open_document("doc-1", "file-x", &file("/a/name.md", Ok("text")), Some("body"), None)
        .expect("a window");
    assert_eq!(state.title, "name");
    assert_eq!(state.current_content, "text");
    assert_eq!(state.saved_path.as_deref(), Some("/a/name.md"));
    assert!(state.path_disclosure && state.content_explicitly_set && !state.dirty);
    assert_eq!(states.get_saved_path("doc-1").as_deref(), Some("/a/name.md"));
    assert_eq!(
        states.get_initial_content("doc-1"),
        ("text".to_string(), "name".to_string(), true)
    );
    assert_eq!(states.instance_id("doc-1").as_deref(), Some("file-x"));
}

#[test]
fn window_opens_without_a_file() {
    let mut states = WindowStates::new();
    let state =
        states.open_document("doc-1", "body-1", &None, Some("b"), Some("T")).expect("a window");
    assert_eq!((state.title.as_str(), state.current_content.as_str()), ("T", "b"));
    assert!(state.content_explicitly_set && state.saved_path.is_none());
    let state = states.open_document("doc-2", "gui-1", &None, None, None).expect("a window");
    assert_eq!((state.title.as_str(), state.current_content.as_str()), ("Untitled", ""));
    assert!(!state.content_explicitly_set);
    let failed = states.open_document("doc-3", "x", &file("/a", Err("gone")), None, None);
    assert_eq!(failed.err().as_deref(), Some("Failed to read file: gone"));
    assert_eq!(states.labels(), vec!["doc-1", "doc-2"]);
    assert_eq!(
        states.get_initial_content("doc-3"),
        (String::new(), "Untitled".to_string(), false)
    );
}

#[test]
fn first_window_prefers_what_was_given() {
    let f = file("/a/name.md", Ok("text"));
    let w = first_window("id", &f, Some("body"), Some("T"));
    assert_eq!((w.current_content.as_str(), w.title.as_str()), ("body", "T"));
    assert!(w.saved_path.is_none() && w.content_explicitly_set);
    let w = first_window("id", &f, Some(""), None);
    assert_eq!((w.current_content.as_str(), w.title.as_str()), ("text", "name"));
    assert_eq!(w.saved_path.as_deref(), Some("/a/name.md"));
    let w = first_window("id", &file("/a", Err("gone")), None, Some("T"));
    assert_eq!((w.current_content.as_str(), w.title.as_str()), ("", "T"));
    assert!(w.saved_path.is_none() && w.content_explicitly_set);
    let w = first_window("id", &None, None, None);
    assert_eq!((w.current_content.as_str(), w.title.as_str()), ("", "Untitled"));
    assert!(!w.content_explicitly_set);
    assert_eq!(document_title(Some("x")), "x");
    assert_eq!(window_title("x"), "x — tsumugi");
}

#[test]
fn open_file_is_focused() {
    let mut states = WindowStates::new();
    states.open_document("doc-1", "file-x", &file("/a.md", Ok("a")), None, None).ok();
    assert_eq!(
        states.find_open("/a.md"),
        Some(("doc-1".to_string(), "file-x".to_string()))
    );
    assert_eq!(states.find_open("/b.md"), None);
    match states.plan_open(Some("/a.md"), Some("file-y"), false, 1, 2) {
        OpenPlan::Focus { label, instance_id } => {
            assert_eq!((label.as_str(), instance_id.as_str()), ("doc-1", "file-x"));
        }
        other => panic!("{:?}", other),
    }
    match states.plan_open(Some("/b.md"), Some("file-y"), false, 1, 2) {
        OpenPlan::Create { label, instance_id } => {
            assert_eq!((label.as_str(), instance_id.as_str()), ("doc-0001", "file-y"));
        }
        other => panic!("{:?}", other),
    }
    match states.plan_open(None, None, true, 1, 2) {
        OpenPlan::Create { instance_id, .. } => assert_eq!(instance_id, "body-0002"),
        other => panic!("{:?}", other),
    }
}

#[test]
fn dirty_means_changed_since_the_save() {
    let mut states = WindowStates::new();
    states.open_document("main", "id", &file("/a.md", Ok("a")), None, None).ok();
    assert!(!states.must_ask("main"));
    states.sync_content("main", "b");
    assert!(states.must_ask("main"));
    assert_eq!(
        states.record_history("main"),
        Some(("b".to_string(), Some("/a.md".to_string()), false))
    );
    states.sync_content("main", "a");
    assert!(!states.must_ask("main"));
    states.sync_content("main", "b");
    assert_eq!(states.notify_saved("main", "/b.md").as_deref(), Some("b"));
    assert_eq!(
        states.record_history("main"),
        Some(("b".to_string(), Some("/b.md".to_string()), true))
    );
    states.sync_content("main", "c");
    states.set_dirty("main", false);
    assert!(!states.must_ask("main"));
    states.sync_content("main", "b");
    assert!(states.must_ask("main"));
    states.sync_content("main", "c");
    states.set_dirty("main", true);
    assert!(states.must_ask("main"));
}

#[test]
fn unknown_windows_are_passed_over() {
    let mut states = WindowStates::new();
    states.sync_content("x", "a");
    states.set_dirty("x", true);
    states.rename_file("x", "/a", None);
    assert_eq!(states.notify_saved("x", "/a"), None);
    assert_eq!(states.get_saved_path("x"), None);
    assert_eq!(states.record_history("x"), None);
    assert_eq!(states.instance_id("x"), None);
    assert!(states.labels().is_empty());
}

#[test]
fn renamed_document_has_a_new_title() {
    let mut states = WindowStates::new();
    states.open_document("main", "id", &file("/a.md", Ok("a")), None, None).ok();
    states.sync_content("main", "b");
    states.rename_file("main", "/new.md", Some("new"));
    assert_eq!(states.get_saved_path("main").as_deref(), Some("/new.md"));
    assert_eq!(states.get_initial_content("main").1, "new");
    assert!(states.must_ask("main"));
    states.rename_file("main", "/", None);
    assert_eq!(states.get_initial_content("main").1, "Untitled");
}

#[test]
fn only_dirty_documents_are_asked_about() {
    let mut states = WindowStates::new();
    let mut w = WindowState::new("about".to_string(), "About".to_string(), String::new());
    w.dirty = true;
    states.insert("about", w.clone());
    assert!(!states.must_ask("about"));
    states.insert("doc-1", w);
    assert!(states.must_ask("doc-1"));
    assert!(!states.must_ask("doc-2"));
}

#[test]
fn answers_are_followed() {
    let custom = |s: &str| Answer::Custom(s.to_string());
    assert_eq!(close_step(&Answer::Yes, "Save", "Don't"), CloseStep::SaveAndClose);
    assert_eq!(close_step(&Answer::No, "Save", "Don't"), CloseStep::Close);
    assert_eq!(close_step(&custom("Save"), "Save", "Don't"), CloseStep::SaveAndClose);
    assert_eq!(close_step(&custom("Don't"), "Save", "Don't"), CloseStep::Close);
    assert_eq!(close_step(&custom("Cancel"), "Save", "Don't"), CloseStep::Stay);
    assert_eq!(close_step(&custom("Same"), "Same", "Same"), CloseStep::SaveAndClose);
    assert_eq!(close_step(&Answer::Other, "Save", "Don't"), CloseStep::Stay);
}

#[test]
fn program_ends_with_its_last_document() {
    let mut states = WindowStates::new();
    states.open_document("main", "id-1", &None, None, None).ok();
    states.open_document("doc-1", "id-2", &None, None, None).ok();
    let about = WindowState::new("about".to_string(), String::new(), String::new());
    states.insert("about", about);
    let d = states.depart("settings");
    assert!(!d.document && d.instance_id.is_none() && !d.should_exit);
    let d = states.depart("main");
    assert!(d.document && !d.should_exit);
    assert_eq!(d.instance_id.as_deref(), Some("id-1"));
    let d = states.depart("doc-1");
    assert!(d.should_exit);
    assert_eq!(states.labels(), vec!["about"]);
    let d = states.depart("about");
    assert!(!d.document && !d.should_exit);
    assert!(states.labels().is_empty());
    let d = states.depart("doc-9");
    assert!(d.document && d.instance_id.is_none() && d.should_exit);
}

fn args() -> StartArgs {
    StartArgs {
        id: None,
        file: None,
        file_pos: None,
        body: None,
        title: None,
        query: false,
        grep: false,
        lines: false,
        delete: false,
        insert: false,
        replace: false,
        list: false,
        foreground: false,
    }
}

fn some(s: &str) -> Option<String> {
    Some(s.to_string())
}

#[test]
fn first_identifier() {
    assert_eq!(
        first_instance_id(&StartArgs { id: some("x"), body: some("b"), ..args() }, None, 1),
        ("x".to_string(), false)
    );
    assert_eq!(
        first_instance_id(&StartArgs { body: some("b"), ..args() }, Some("file-x"), 1),
        ("body-0001".to_string(), true)
    );
    assert_eq!(
        first_instance_id(&args(), Some("file-x"), 1),
        ("file-x".to_string(), false)
    );
    assert_eq!(first_instance_id(&args(), None, 1), ("gui-0001".to_string(), false));
}

#[test]
fn file_that_is_named_goes_first() {
    let both = StartArgs { file: some("a"), file_pos: some("b"), ..args() };
    assert_eq!(both.initial_file(), some("a"));
    assert_eq!(StartArgs { file_pos: some("b"), ..args() }.initial_file(), some("b"));
    assert_eq!(args().initial_file(), None);
    assert!(StartArgs { body: some("-"), ..args() }.reads_stdin());
    assert!(!StartArgs { body: some("--"), ..args() }.reads_stdin());
    assert!(!args().reads_stdin());
}

#[test]
fn start_hands_over_to_what_runs() {
    let plain = args();
    let step = |a: &StartArgs, e: StartEvent| next_step(a, e, false, false);
    assert_eq!(step(&plain, StartEvent::Started), StartAction::DelegateToPrimary);
    assert_eq!(step(&plain, StartEvent::Delegated(true)), StartAction::Finish);
    assert_eq!(step(&plain, StartEvent::Delegated(false)), StartAction::RunHere);
    let asked = StartArgs { id: some("x"), ..args() };
    assert_eq!(step(&asked, StartEvent::Started), StartAction::SendToInstance);
    assert_eq!(step(&asked, StartEvent::Sent(true)), StartAction::Finish);
    assert_eq!(step(&asked, StartEvent::Sent(false)), StartAction::RunHere);
    assert_eq!(next_step(&asked, StartEvent::Sent(false), false, true), StartAction::Daemonize);
}

#[test]
fn requests_need_a_window() {
    let requests = [
        StartArgs { query: true, ..args() },
        StartArgs { grep: true, ..args() },
        StartArgs { lines: true, ..args() },
        StartArgs { delete: true, ..args() },
        StartArgs { insert: true, ..args() },
        StartArgs { replace: true, list: true, ..args() },
    ];
    for request in &requests {
        let action = next_step(request, StartEvent::Started, false, true);
        assert_eq!(action, StartAction::FailNoInstance);
    }
    let list = StartArgs { list: true, ..args() };
    assert_eq!(next_step(&list, StartEvent::Started, false, true), StartAction::ListInstances);
}

#[test]
fn program_goes_to_the_background() {
    assert!(should_daemonize(&args(), false, true));
    assert!(!should_daemonize(&args(), false, false));
    assert!(!should_daemonize(&StartArgs { foreground: true, ..args() }, true, true));
    assert!(!should_daemonize(&StartArgs { file: some("a"), ..args() }, false, false));
    assert!(should_daemonize(&StartArgs { file: some("a"), ..args() }, true, false));
    assert!(should_daemonize(&StartArgs { file_pos: some("a"), ..args() }, true, false));
    assert!(should_daemonize(&StartArgs { body: some("a"), ..args() }, true, false));
    assert!(!should_daemonize(&args(), true, false));
}

#[test]
fn background_process_gets_the_identifier() {
    let given = vec!["a.md".to_string()];
    assert_eq!(child_args(given.clone(), true, "x"), vec!["a.md", "--_foreground"]);
    assert_eq!(
        child_args(given, false, "x"),
        vec!["a.md", "--_foreground", "--id", "x"]
    );
}

#[test]
fn innermost_bundle_is_found() {
    let ancestor = |path: &str, extension: Option<&str>| Ancestor {
        path: path.to_string(),
        extension: extension.map(|e| e.to_string()),
    };
    let ancestors = vec![
        ancestor("/x.app/y.app/bin", None),
        ancestor("/x.app/y.app", Some("app")),
        ancestor("/x.app", Some("app")),
        ancestor("/", None),
    ];
    assert_eq!(find_app_bundle(&ancestors).as_deref(), Some("/x.app/y.app"));
    assert_eq!(find_app_bundle(&vec![ancestor("/a.exe", Some("exe"))]), None);
    assert_eq!(background_bundle(true, false, some("/x.app")), some("/x.app"));
    assert_eq!(background_bundle(true, true, some("/x.app")), None);
    assert_eq!(background_bundle(false, false, some("/x.app")), None);
}

#[test]
fn port_file_and_end() {
    assert_eq!(port_file_content(8080, "tok"), "8080:tok");
    assert!(stays_running(None));
    assert!(!stays_running(Some(0)));
}

#[test]
fn browser_is_the_first_that_is_there() {
    assert_eq!(browser_candidates(Platform::MacOs).len(), 4);
    assert_eq!(
        find_browser(Platform::MacOs, &vec![false, true, true, false]).as_deref(),
        Some("/Applications/Google Chrome.app/Contents/MacOS/Google Chrome")
    );
    assert_eq!(
        find_browser(Platform::Windows, &vec![true, false, false, false]).as_deref(),
        Some("C:\\Program Files (x86)\\Microsoft\\Edge\\Application\\msedge.exe")
    );
    assert_eq!(find_browser(Platform::Windows, &vec![false; 4]), None);
    assert_eq!(find_browser(Platform::Other, &vec![]), None);
    assert!(has_pdf_browser(Platform::MacOs, &None));
    assert!(!has_pdf_browser(Platform::Windows, &None));
    assert!(has_pdf_browser(Platform::Windows, &some("x")));
    assert_eq!(
        no_browser_message(),
        "No Chromium-based browser found. Please install Chrome or Edge."
    );
}

#[test]
fn browser_is_called() {
    assert_eq!(
        browser_args(HeaderSwitch::Newer, "/tmp/p", "/o.pdf", "http://u"),
        vec![
            "--headless=old",
            "--disable-gpu",
            "--no-pdf-header-footer",
            "--user-data-dir=/tmp/p",
            "--print-to-pdf=/o.pdf",
            "http://u",
        ]
    );
    assert_eq!(
        browser_args(HeaderSwitch::Older, "p", "o", "u")[2],
        "--print-to-pdf-no-header"
    );
    assert_eq!(profile_name(12, 3), "tsumugi-pdf-profile-12-3");
    assert_ne!(profile_name(12, 3), profile_name(12, 4));
    assert_eq!(document_url(80, "t"), "http://127.0.0.1:80/pdf-content/t");
    assert_eq!(launch_failed("x"), "Failed to launch browser: x");
}

#[test]
fn browser_is_called_again_where_no_file_came() {
    assert!(matches!(after_browser(HeaderSwitch::Newer, "", true), PdfStep::Done));
    assert!(matches!(after_browser(HeaderSwitch::Newer, "x", false), PdfStep::Retry));
    assert!(matches!(after_browser(HeaderSwitch::Older, "x", true), PdfStep::Done));
    match after_browser(HeaderSwitch::Older, "x", false) {
        PdfStep::Fail(why) => assert_eq!(why, "PDF generation failed: x"),
        other => panic!("{:?}", other),
    }
    for complaint in ["ERR_FAILED", "a net::b"] {
        assert!(matches!(
            after_browser(HeaderSwitch::Newer, complaint, true),
            PdfStep::Fail(_)
        ));
    }
    assert_eq!(after_helper(true, "x"), Ok(()));
    assert_eq!(
        after_helper(false, "x"),
        Err("PDF generation failed (sidecar): x".to_string())
    );
}
