//! The windows and the documents that they show.
use vstd::prelude::*;

use crate::string_map::StringMap;
use crate::text;
use crate::text::{hex_string, join, same_text, starts_with};

verus! {

/// A window's document: what it is called and holds, where and with what content it was saved last,
/// and whether that is another content than it holds now.
pub struct WindowState {
    pub instance_id: String,
    pub title: String,
    pub current_content: String,
    pub saved_content: String,
    pub saved_path: Option<String>,
    pub path_disclosure: bool,
    pub dirty: bool,
    pub content_explicitly_set: bool,
}

/// A window's document.
pub struct WindowView {
    pub instance_id: Seq<char>,
    pub title: Seq<char>,
    pub current_content: Seq<char>,
    pub saved_content: Seq<char>,
    pub saved_path: Option<Seq<char>>,
    pub path_disclosure: bool,
    pub dirty: bool,
    pub content_explicitly_set: bool,
}

impl View for WindowState {
    type V = WindowView;

    open spec fn view(&self) -> WindowView {
        WindowView {
            instance_id: self.instance_id@,
            title: self.title@,
            current_content: self.current_content@,
            saved_content: self.saved_content@,
            saved_path: text::content_of(self.saved_path),
            path_disclosure: self.path_disclosure,
            dirty: self.dirty,
            content_explicitly_set: self.content_explicitly_set,
        }
    }
}

fn clone_text(s: &Option<String>) -> (r: Option<String>)
    ensures
        text::content_of(r) == text::content_of(*s),
{
    match s {
        Some(s) => Some(s.clone()),
        None => None,
    }
}

impl Clone for WindowState {
    fn clone(&self) -> (r: Self)
        ensures
            r@ == self@,
    {
        WindowState {
            instance_id: self.instance_id.clone(),
            title: self.title.clone(),
            current_content: self.current_content.clone(),
            saved_content: self.saved_content.clone(),
            saved_path: clone_text(&self.saved_path),
            path_disclosure: self.path_disclosure,
            dirty: self.dirty,
            content_explicitly_set: self.content_explicitly_set,
        }
    }
}

/// A document as it is opened: unchanged, and nowhere saved.
pub open spec fn fresh(instance_id: Seq<char>, title: Seq<char>, content: Seq<char>) -> WindowView {
    WindowView {
        instance_id,
        title,
        current_content: content,
        saved_content: content,
        saved_path: None,
        path_disclosure: false,
        dirty: false,
        content_explicitly_set: false,
    }
}

impl WindowState {
    /// A document as it is opened: unchanged, and nowhere saved.
    pub fn new(instance_id: String, title: String, content: String) -> (w: Self)
        ensures
            w@ == fresh(instance_id@, title@, content@),
    {
        WindowState {
            instance_id,
            title,
            saved_content: content.clone(),
            current_content: content,
            saved_path: None,
            path_disclosure: false,
            dirty: false,
            content_explicitly_set: false,
        }
    }
}

/// A window that shows a document, or the list of recent ones.
pub open spec fn shows_document(label: Seq<char>) -> bool {
    label == "main"@ || text::has_prefix(label, "doc-"@) || text::has_prefix(label, "main-home"@)
}

/// Whether a window shows a document. Only such a window is remembered as the last that had the
/// focus.
pub fn is_document_window(label: &str) -> (b: bool)
    ensures
        b == shows_document(label@),
{
    same_text(label, "main") || starts_with(label, "doc-") || starts_with(label, "main-home")
}

/// The label of a document's window.
pub open spec fn label_of(n: u16) -> Seq<char> {
    "doc-"@ + text::hex(n as nat, 4)
}

/// The label of a document's window.
pub fn document_label(n: u16) -> (label: String)
    ensures
        label@ == label_of(n),
{
    let digits = hex_string(n as u64, 4);
    join("doc-", digits.as_str())
}

/// The windows with such labels show documents, and different numbers give different labels.
pub proof fn law_labels_are_told_apart(m: u16, n: u16)
    ensures
        shows_document(label_of(m)),
        label_of(m) == label_of(n) ==> m == n,
{
    reveal_strlit("doc-");
    assert(label_of(m).take(4) =~= "doc-"@);
    if label_of(m) == label_of(n) {
        assert(label_of(m).skip(4) =~= text::hex(m as nat, 4));
        assert(label_of(n).skip(4) =~= text::hex(n as nat, 4));
        reveal_with_fuel(vstd::arithmetic::power::pow, 5);
        assert(vstd::arithmetic::power::pow(16, 4) == 65536);
        text::law_hex_tells_numbers_apart(m as nat, n as nat, 4);
    }
}

/// The identifier of a window: that of its file, or a number behind a word that says whether its
/// content was given.
pub open spec fn instance_of(file_id: Option<Seq<char>>, has_body: bool, n: u16) -> Seq<char> {
    match file_id {
        Some(id) => id,
        None => if has_body {
            "body-"@ + text::hex(n as nat, 4)
        } else {
            "gui-"@ + text::hex(n as nat, 4)
        },
    }
}

/// The identifier of a window.
pub fn new_instance_id(file_id: Option<&str>, has_body: bool, n: u16) -> (id: String)
    ensures
        id@ == instance_of(text::content_of_str(file_id), has_body, n),
{
    match file_id {
        Some(id) => id.to_owned(),
        None => {
            let digits = hex_string(n as u64, 4);
            if has_body {
                join("body-", digits.as_str())
            } else {
                join("gui-", digits.as_str())
            }
        },
    }
}

/// `getrandom::Error`: why there is no random number.
#[verifier::external_type_specification]
#[verifier::external_body]
pub struct ExRandomError(getrandom::Error);

/// `getrandom::getrandom` on two bytes. Nothing is known of them, nor of when there are none.
#[verifier::external_body]
fn random_bytes() -> (r: Result<(u8, u8), getrandom::Error>) {
    let mut bytes = [0u8; 2];
    match getrandom::getrandom(&mut bytes) {
        Ok(()) => Ok((bytes[0], bytes[1])),
        Err(e) => Err(e),
    }
}

/// The number that two bytes make, the lower one first.
pub fn number_of(low: u8, high: u8) -> (n: u16)
    ensures
        n == low + 256 * high,
{
    low as u16 + 256 * (high as u16)
}

/// A random number, if there is one.
pub fn rand_u16() -> (n: Option<u16>) {
    match random_bytes() {
        Ok((low, high)) => Some(number_of(low, high)),
        Err(_) => None,
    }
}

/// What a document without a name is called.
pub open spec fn title_or_untitled(title: Option<Seq<char>>) -> Seq<char> {
    match title {
        Some(t) => t,
        None => "Untitled"@,
    }
}

/// What a document is called, if it has a name.
pub fn document_title(title: Option<&str>) -> (t: String)
    ensures
        t@ == title_or_untitled(text::content_of_str(title)),
{
    match title {
        Some(t) => t.to_owned(),
        None => "Untitled".to_owned(),
    }
}

/// What the bar of a document's window says.
pub fn window_title(title: &str) -> (bar: String)
    ensures
        bar@ == title@ + " — tsumugi"@,
{
    join(title, " — tsumugi")
}

/// A file that was read for a window: where it is, its name without the extension, and its text, or
/// why that could not be read.
pub struct FileText {
    pub path: String,
    pub stem: Option<String>,
    pub text: Result<String, String>,
}

/// A document with its text, its title and the path of its file.
pub struct DocumentView {
    pub content: Seq<char>,
    pub title: Seq<char>,
    pub path: Option<Seq<char>>,
}

/// A document from a file that was read.
pub open spec fn document_of_file(file: FileText, content: String) -> DocumentView {
    DocumentView {
        content: content@,
        title: title_or_untitled(text::content_of(file.stem)),
        path: Some(file.path@),
    }
}

/// The document that a window is opened with: that of the file, or else the one that was given, or
/// else an empty one.
pub open spec fn document_to_open(
    file: Option<FileText>,
    body: Option<Seq<char>>,
    title: Option<Seq<char>>,
) -> Result<DocumentView, Seq<char>> {
    match file {
        Some(f) => match f.text {
            Ok(content) => Ok(document_of_file(f, content)),
            Err(why) => Err("Failed to read file: "@ + why@),
        },
        None => Ok(
            DocumentView {
                content: match body {
                    Some(b) => b,
                    None => Seq::empty(),
                },
                title: title_or_untitled(title),
                path: None,
            },
        ),
    }
}

/// The document that the first window is opened with: the one that was given, if it is not empty,
/// or else that of the file, if it could be read, or else an empty one.
pub open spec fn first_document(
    file: Option<FileText>,
    body: Option<Seq<char>>,
    title: Option<Seq<char>>,
) -> DocumentView {
    let given = match body {
        Some(b) => b,
        None => Seq::empty(),
    };
    let otherwise = DocumentView { content: given, title: title_or_untitled(title), path: None };
    if given.len() > 0 {
        otherwise
    } else {
        match file {
            Some(f) => match f.text {
                Ok(content) => document_of_file(f, content),
                Err(_) => otherwise,
            },
            None => otherwise,
        }
    }
}

/// The window that shows a document.
pub open spec fn window_showing(instance_id: Seq<char>, d: DocumentView, given: bool) -> WindowView {
    WindowView {
        saved_path: d.path,
        path_disclosure: d.path is Some,
        content_explicitly_set: given,
        ..fresh(instance_id, d.title, d.content)
    }
}

fn show_file(instance_id: &str, path: &str, stem: Option<&str>, content: &str) -> (w: WindowState)
    ensures
        w@ == window_showing(
            instance_id@,
            DocumentView {
                content: content@,
                title: title_or_untitled(text::content_of_str(stem)),
                path: Some(path@),
            },
            true,
        ),
{
    let mut w = WindowState::new(
        instance_id.to_owned(),
        document_title(stem),
        content.to_owned(),
    );
    w.content_explicitly_set = true;
    w.saved_path = Some(path.to_owned());
    w.path_disclosure = true;
    w
}

fn borrow_text(s: &Option<String>) -> (r: Option<&str>)
    ensures
        text::content_of_str(r) == text::content_of(*s),
{
    match s {
        Some(s) => Some(s.as_str()),
        None => None,
    }
}

/// The state of the first window.
pub fn first_window(
    instance_id: &str,
    file: &Option<FileText>,
    body: Option<&str>,
    title: Option<&str>,
) -> (w: WindowState)
    ensures
        w@ == window_showing(
            instance_id@,
            first_document(*file, text::content_of_str(body), text::content_of_str(title)),
            body is Some || file is Some,
        ),
{
    let given = match body {
        Some(b) => b.to_owned(),
        None => String::new(),
    };
    if given.as_str().is_empty() {
        if let Some(f) = file {
            if let Ok(content) = &f.text {
                return show_file(
                    instance_id,
                    f.path.as_str(),
                    borrow_text(&f.stem),
                    content.as_str(),
                );
            }
        }
    }
    let mut w = WindowState::new(instance_id.to_owned(), document_title(title), given);
    w.content_explicitly_set = body.is_some() || file.is_some();
    w
}

/// The windows, each under its label.
pub struct WindowStates {
    windows: StringMap<WindowState>,
}

impl View for WindowStates {
    type V = Map<Seq<char>, WindowView>;

    closed spec fn view(&self) -> Map<Seq<char>, WindowView> {
        self.windows@.map_values(|w: WindowState| w@)
    }
}

/// The windows once a document was saved.
pub open spec fn saved(w: WindowView, path: Seq<char>) -> WindowView {
    WindowView {
        saved_path: Some(path),
        path_disclosure: true,
        saved_content: w.current_content,
        dirty: false,
        ..w
    }
}

/// A window's document once its content has changed: it is dirty where it is not what was saved.
pub open spec fn synced(w: WindowView, content: Seq<char>) -> WindowView {
    WindowView { current_content: content, dirty: content != w.saved_content, ..w }
}

/// A window's document once it is said to be dirty or not. What is not dirty counts as saved.
pub open spec fn marked(w: WindowView, dirty: bool) -> WindowView {
    WindowView {
        dirty,
        saved_content: if dirty {
            w.saved_content
        } else {
            w.current_content
        },
        ..w
    }
}

/// A window's document once its file has another path.
pub open spec fn renamed(w: WindowView, path: Seq<char>, stem: Option<Seq<char>>) -> WindowView {
    WindowView {
        saved_path: Some(path),
        path_disclosure: true,
        title: title_or_untitled(stem),
        ..w
    }
}

/// The windows once the one of a label has changed, if there is one.
pub open spec fn changed(
    windows: Map<Seq<char>, WindowView>,
    label: Seq<char>,
    w: WindowView,
) -> Map<Seq<char>, WindowView> {
    if windows.contains_key(label) {
        windows.insert(label, w)
    } else {
        windows
    }
}

/// A window that shows the file at a path.
pub open spec fn shows_path(w: WindowView, path: Seq<char>) -> bool {
    w.saved_path == Some(path)
}

/// No window shows the file at a path.
pub open spec fn none_shows(windows: Map<Seq<char>, WindowView>, path: Seq<char>) -> bool {
    forall|label: Seq<char>| #[trigger]
        windows.contains_key(label) ==> !shows_path(windows[label], path)
}

/// There is a window that is not the one about the program.
pub open spec fn any_document(windows: Map<Seq<char>, WindowView>) -> bool {
    exists|label: Seq<char>| #[trigger]
        windows.contains_key(label) && windows[label].instance_id != "about"@
}

/// Where a document is to be shown.
#[derive(Debug)]
pub enum OpenPlan {
    /// In the window with this label and identifier.
    Focus { label: String, instance_id: String },
    /// In a new window, which gets this label and identifier.
    Create { label: String, instance_id: String },
}

/// What is to be done when a window is gone.
#[derive(Debug)]
pub struct Departure {
    /// The window showed a document: its files, its watcher and its history are to be let go.
    pub document: bool,
    /// The identifier of the window, under which its files are found.
    pub instance_id: Option<String>,
    /// No document is left, and the program is to end.
    pub should_exit: bool,
}

/// The user's answer, when asked whether to save.
#[derive(Debug)]
pub enum Answer {
    Yes,
    No,
    Custom(String),
    Other,
}

/// What follows on the answer.
#[derive(Clone, Copy, Debug, PartialEq, Eq, Structural)]
pub enum CloseStep {
    SaveAndClose,
    Close,
    Stay,
}

/// What follows on an answer, where buttons say `save` and `dont_save`.
pub open spec fn answered(a: Answer, save: Seq<char>, dont_save: Seq<char>) -> CloseStep {
    match a {
        Answer::Yes => CloseStep::SaveAndClose,
        Answer::No => CloseStep::Close,
        Answer::Custom(s) => if s@ == save {
            CloseStep::SaveAndClose
        } else if s@ == dont_save {
            CloseStep::Close
        } else {
            CloseStep::Stay
        },
        Answer::Other => CloseStep::Stay,
    }
}

/// What follows on an answer, where buttons say `save` and `dont_save`.
pub fn close_step(a: &Answer, save: &str, dont_save: &str) -> (step: CloseStep)
    ensures
        step == answered(*a, save@, dont_save@),
{
    match a {
        Answer::Yes => CloseStep::SaveAndClose,
        Answer::No => CloseStep::Close,
        Answer::Custom(s) => if same_text(s.as_str(), save) {
            CloseStep::SaveAndClose
        } else if same_text(s.as_str(), dont_save) {
            CloseStep::Close
        } else {
            CloseStep::Stay
        },
        Answer::Other => CloseStep::Stay,
    }
}

/// What a change of a window's document is recorded with: its content, its path, and whether it is
/// saved.
pub open spec fn record_input(w: WindowView) -> (Seq<char>, Option<Seq<char>>, bool) {
    (w.current_content, w.saved_path, !w.dirty)
}

/// The content of a window's document, if there is the window.
pub open spec fn content_in(windows: Map<Seq<char>, WindowView>, label: Seq<char>) -> Option<
    Seq<char>,
> {
    if windows.contains_key(label) {
        Some(windows[label].current_content)
    } else {
        None
    }
}

/// Where the document of a window was saved, if it was.
pub open spec fn path_in(windows: Map<Seq<char>, WindowView>, label: Seq<char>) -> Option<Seq<char>> {
    if windows.contains_key(label) {
        windows[label].saved_path
    } else {
        None
    }
}

/// What a window begins with: its content, its title, and whether the content was given.
pub open spec fn beginning(windows: Map<Seq<char>, WindowView>, label: Seq<char>) -> (
    Seq<char>,
    Seq<char>,
    bool,
) {
    if windows.contains_key(label) {
        let w = windows[label];
        (w.current_content, w.title, w.content_explicitly_set)
    } else {
        (Seq::empty(), "Untitled"@, false)
    }
}

/// The user is asked before a window closes.
pub open spec fn asks_first(windows: Map<Seq<char>, WindowView>, label: Seq<char>) -> bool {
    shows_document(label) && windows.contains_key(label) && windows[label].dirty
}

/// The windows that are left once one is gone.
pub open spec fn left_after(windows: Map<Seq<char>, WindowView>, label: Seq<char>) -> Map<
    Seq<char>,
    WindowView,
> {
    if shows_document(label) || label == "about"@ {
        windows.remove(label)
    } else {
        windows
    }
}

/// The program ends once a window is gone.
pub open spec fn ends_after(windows: Map<Seq<char>, WindowView>, label: Seq<char>) -> bool {
    shows_document(label) && !any_document(left_after(windows, label))
}

impl WindowStates {
    /// No label occurs twice.
    pub closed spec fn wf(&self) -> bool {
        self.windows.wf()
    }

    /// No windows.
    pub fn new() -> (s: Self)
        ensures
            s.wf(),
            s@ == Map::<Seq<char>, WindowView>::empty(),
    {
        let s = WindowStates { windows: StringMap::new() };
        assert(s@ =~= Map::empty());
        s
    }

    fn window(&self, label: &str) -> (w: Option<WindowState>)
        requires
            self.wf(),
        ensures
            match w {
                Some(w) => self@.contains_key(label@) && w@ == self@[label@],
                None => !self@.contains_key(label@),
            },
    {
        match self.windows.get(label) {
            Some(w) => Some(w.clone()),
            None => None,
        }
    }

    /// Sets the state of a window.
    pub fn insert(&mut self, label: &str, w: WindowState)
        requires
            old(self).wf(),
        ensures
            final(self).wf(),
            final(self)@ == old(self)@.insert(label@, w@),
    {
        let ghost before = self.windows@;
        self.windows.insert(label, w);
        assert(self@ =~= before.map_values(|w: WindowState| w@).insert(label@, w@));
    }

    fn remove(&mut self, label: &str)
        requires
            old(self).wf(),
        ensures
            final(self).wf(),
            final(self)@ == old(self)@.remove(label@),
    {
        let ghost before = self.windows@;
        self.windows.remove(label);
        assert(self@ =~= before.map_values(|w: WindowState| w@).remove(label@));
    }

    /// Notes that a window's document was saved. Gives its content, which is to be recorded.
    pub fn notify_saved(&mut self, label: &str, path: &str) -> (content: Option<String>)
        requires
            old(self).wf(),
        ensures
            final(self).wf(),
            final(self)@ == changed(old(self)@, label@, saved(old(self)@[label@], path@)),
            text::content_of(content) == if old(self)@.contains_key(label@) {
                Some(old(self)@[label@].current_content)
            } else {
                None
            },
            text::content_of(content) == content_in(old(self)@, label@),
    {
        match self.window(label) {
            Some(w) => {
                let mut w = w;
                let content = w.current_content.clone();
                w.saved_path = Some(path.to_owned());
                w.path_disclosure = true;
                w.saved_content = content.clone();
                w.dirty = false;
                self.insert(label, w);
                Some(content)
            },
            None => None,
        }
    }

    /// Where a window's document was saved.
    pub fn get_saved_path(&self, label: &str) -> (path: Option<String>)
        requires
            self.wf(),
        ensures
            text::content_of(path) == if self@.contains_key(label@) {
                self@[label@].saved_path
            } else {
                None
            },
            text::content_of(path) == path_in(self@, label@),
    {
        match self.windows.get(label) {
            Some(w) => clone_text(&w.saved_path),
            None => None,
        }
    }

    /// Notes what a window's document holds now.
    pub fn sync_content(&mut self, label: &str, content: &str)
        requires
            old(self).wf(),
        ensures
            final(self).wf(),
            final(self)@ == changed(old(self)@, label@, synced(old(self)@[label@], content@)),
    {
        if let Some(w) = self.window(label) {
            let mut w = w;
            w.current_content = content.to_owned();
            w.dirty = !same_text(content, w.saved_content.as_str());
            self.insert(label, w);
        }
    }

    /// What a change of a window's document is recorded with: its content, its path, and whether it
    /// is saved.
    pub fn record_history(&self, label: &str) -> (input: Option<(String, Option<String>, bool)>)
        requires
            self.wf(),
        ensures
            match input {
                Some((content, path, is_saved)) => self@.contains_key(label@) && (
                    content@,
                    text::content_of(path),
                    is_saved,
                ) == record_input(self@[label@]),
                None => !self@.contains_key(label@),
            },
    {
        match self.windows.get(label) {
            Some(w) => Some((w.current_content.clone(), clone_text(&w.saved_path), !w.dirty)),
            None => None,
        }
    }

    /// Notes whether a window's document is dirty. What is not dirty counts as saved.
    pub fn set_dirty(&mut self, label: &str, dirty: bool)
        requires
            old(self).wf(),
        ensures
            final(self).wf(),
            final(self)@ == changed(old(self)@, label@, marked(old(self)@[label@], dirty)),
    {
        if let Some(w) = self.window(label) {
            let mut w = w;
            w.dirty = dirty;
            if !dirty {
                w.saved_content = w.current_content.clone();
            }
            self.insert(label, w);
        }
    }

    /// What a window begins with: its content, its title, and whether the content was given.
    pub fn get_initial_content(&self, label: &str) -> (r: (String, String, bool))
        requires
            self.wf(),
        ensures
            (r.0@, r.1@, r.2) == if self@.contains_key(label@) {
                (
                    self@[label@].current_content,
                    self@[label@].title,
                    self@[label@].content_explicitly_set,
                )
            } else {
                (Seq::<char>::empty(), "Untitled"@, false)
            },
            (r.0@, r.1@, r.2) == beginning(self@, label@),
    {
        match self.windows.get(label) {
            Some(w) => (w.current_content.clone(), w.title.clone(), w.content_explicitly_set),
            None => {
                let empty: String = String::new();
                assert(empty@ =~= Seq::<char>::empty());
                (empty, "Untitled".to_owned(), false)
            },
        }
    }

    /// Notes that the file of a window's document has another path.
    pub fn rename_file(&mut self, label: &str, path: &str, stem: Option<&str>)
        requires
            old(self).wf(),
        ensures
            final(self).wf(),
            final(self)@ == changed(
                old(self)@,
                label@,
                renamed(old(self)@[label@], path@, text::content_of_str(stem)),
            ),
    {
        if let Some(w) = self.window(label) {
            let mut w = w;
            w.saved_path = Some(path.to_owned());
            w.path_disclosure = true;
            w.title = document_title(stem);
            self.insert(label, w);
        }
    }

    /// A window that shows the file at a path: its label and identifier. Which one it is, where
    /// several do, is left open.
    pub fn find_open(&self, path: &str) -> (found: Option<(String, String)>)
        requires
            self.wf(),
        ensures
            match found {
                Some((label, id)) => self@.contains_key(label@) && shows_path(self@[label@], path@)
                    && id@ == self@[label@].instance_id,
                None => none_shows(self@, path@),
            },
    {
        proof {
            self.windows.lemma_keys();
        }
        let mut i: usize = 0;
        while i < self.windows.len()
            invariant
                self.wf(),
                i <= self.windows.keys().len(),
                forall|j: int|
                    0 <= j < i ==> !shows_path(self@[#[trigger] self.windows.keys()[j]], path@),
                forall|k: Seq<char>|
                    self.windows.keys().contains(k) <==> self.windows@.contains_key(k),
            decreases self.windows.keys().len() - i,
        {
            let ghost key = self.windows.keys()[i as int];
            assert(self.windows.keys().contains(key));
            assert(self@.contains_key(key));
            let w = self.windows.value_at(i);
            if let Some(p) = &w.saved_path {
                if same_text(p.as_str(), path) {
                    return Some((self.windows.key_at(i).clone(), w.instance_id.clone()));
                }
            }
            i += 1;
        }
        proof {
            assert forall|label: Seq<char>| #[trigger] self@.contains_key(label) implies !shows_path(
                self@[label],
                path@,
            ) by {
                assert(self.windows.keys().contains(label));
                let j = self.windows.keys().index_of(label);
                assert(self.windows.keys()[j] == label);
            }
        }
        None
    }

    /// Where a document is to be shown: in a window that shows its file already, or else in a new
    /// one. `known_path` and `file_id` are the path and the identifier of its file, `label_number`
    /// and `id_number` the numbers for a new window.
    pub fn plan_open(
        &self,
        known_path: Option<&str>,
        file_id: Option<&str>,
        has_body: bool,
        label_number: u16,
        id_number: u16,
    ) -> (plan: OpenPlan)
        requires
            self.wf(),
        ensures
            match plan {
                OpenPlan::Focus { label, instance_id } => known_path is Some && self@.contains_key(
                    label@,
                ) && shows_path(self@[label@], known_path->0@) && instance_id@
                    == self@[label@].instance_id,
                OpenPlan::Create { label, instance_id } => (known_path matches Some(p)
                    ==> none_shows(self@, p@)) && label@ == label_of(label_number) && instance_id@
                    == instance_of(text::content_of_str(file_id), has_body, id_number),
            },
    {
        if let Some(path) = known_path {
            if let Some((label, instance_id)) = self.find_open(path) {
                return OpenPlan::Focus { label, instance_id };
            }
        }
        OpenPlan::Create {
            label: document_label(label_number),
            instance_id: new_instance_id(file_id, has_body, id_number),
        }
    }

    /// Adds a window with a file, a given text, or nothing. Gives the document that it shows: its
    /// content, its title and the path of its file. Where the file could not be read there is no
    /// new window.
    pub fn open_document(
        &mut self,
        label: &str,
        instance_id: &str,
        file: &Option<FileText>,
        body: Option<&str>,
        title: Option<&str>,
    ) -> (r: Result<WindowState, String>)
        requires
            old(self).wf(),
        ensures
            final(self).wf(),
            match document_to_open(
                *file,
                text::content_of_str(body),
                text::content_of_str(title),
            ) {
                Ok(d) => {
                    let w = window_showing(instance_id@, d, file is Some || body is Some);
                    (r matches Ok(state) && state@ == w) && final(self)@ == old(self)@.insert(
                        label@,
                        w,
                    )
                },
                Err(why) => (r matches Err(s) && s@ == why) && final(self)@ == old(self)@,
            },
    {
        let w = match file {
            Some(f) => match &f.text {
                Ok(content) => show_file(
                    instance_id,
                    f.path.as_str(),
                    borrow_text(&f.stem),
                    content.as_str(),
                ),
                Err(why) => return Err(join("Failed to read file: ", why.as_str())),
            },
            None => {
                let content = match body {
                    Some(b) => b.to_owned(),
                    None => String::new(),
                };
                let mut w = WindowState::new(
                    instance_id.to_owned(),
                    document_title(title),
                    content,
                );
                w.content_explicitly_set = body.is_some();
                w
            },
        };
        self.insert(label, w.clone());
        Ok(w)
    }

    /// Whether the user is to be asked before a window closes: it shows a document that is dirty.
    pub fn must_ask(&self, label: &str) -> (ask: bool)
        requires
            self.wf(),
        ensures
            ask == (shows_document(label@) && self@.contains_key(label@) && self@[label@].dirty),
            ask == asks_first(self@, label@),
    {
        if !is_document_window(label) {
            return false;
        }
        match self.windows.get(label) {
            Some(w) => w.dirty,
            None => false,
        }
    }

    /// Lets a window go.
    pub fn depart(&mut self, label: &str) -> (d: Departure)
        requires
            old(self).wf(),
        ensures
            final(self).wf(),
            final(self)@ == if shows_document(label@) || label@ == "about"@ {
                old(self)@.remove(label@)
            } else {
                old(self)@
            },
            d.document == shows_document(label@),
            text::content_of(d.instance_id) == if shows_document(label@)
                && old(self)@.contains_key(label@) {
                Some(old(self)@[label@].instance_id)
            } else {
                None
            },
            d.should_exit == (shows_document(label@) && !any_document(final(self)@)),
            final(self)@ == left_after(old(self)@, label@),
            d.should_exit == ends_after(old(self)@, label@),
    {
        if !is_document_window(label) {
            if same_text(label, "about") {
                self.remove(label);
            }
            return Departure { document: false, instance_id: None, should_exit: false };
        }
        let instance_id = match self.windows.get(label) {
            Some(w) => Some(w.instance_id.clone()),
            None => None,
        };
        self.remove(label);
        let left = self.has_document();
        Departure { document: true, instance_id, should_exit: !left }
    }

    fn has_document(&self) -> (b: bool)
        requires
            self.wf(),
        ensures
            b == any_document(self@),
    {
        proof {
            self.windows.lemma_keys();
        }
        let mut i: usize = 0;
        while i < self.windows.len()
            invariant
                self.wf(),
                i <= self.windows.keys().len(),
                forall|j: int|
                    0 <= j < i ==> self@[#[trigger] self.windows.keys()[j]].instance_id == "about"@,
                forall|k: Seq<char>|
                    self.windows.keys().contains(k) <==> self.windows@.contains_key(k),
            decreases self.windows.keys().len() - i,
        {
            let ghost key = self.windows.keys()[i as int];
            assert(self.windows.keys().contains(key));
            assert(self@.contains_key(key));
            if !same_text(self.windows.value_at(i).instance_id.as_str(), "about") {
                assert(self@[key].instance_id != "about"@);
                return true;
            }
            i += 1;
        }
        proof {
            assert forall|label: Seq<char>| #[trigger] self@.contains_key(label) implies self@[label].instance_id
                == "about"@ by {
                assert(self.windows.keys().contains(label));
                let j = self.windows.keys().index_of(label);
                assert(self.windows.keys()[j] == label);
            }
        }
        false
    }

    /// The labels of all windows.
    pub fn labels(&self) -> (labels: Vec<String>)
        requires
            self.wf(),
        ensures
            text::contents(labels@).no_duplicates(),
            forall|label: Seq<char>| #[trigger]
                text::contents(labels@).contains(label) <==> self@.contains_key(label),
    {
        let mut labels: Vec<String> = Vec::new();
        let mut i: usize = 0;
        while i < self.windows.len()
            invariant
                i <= self.windows.keys().len(),
                text::contents(labels@) == self.windows.keys().take(i as int),
            decreases self.windows.keys().len() - i,
        {
            let ghost so_far = text::contents(labels@);
            let label = self.windows.key_at(i).clone();
            labels.push(label);
            i += 1;
            assert(text::contents(labels@) =~= so_far.push(label@));
            assert(text::contents(labels@) =~= self.windows.keys().take(i as int));
        }
        assert(text::contents(labels@) =~= self.windows.keys());
        proof {
            self.windows.lemma_keys();
        }
        labels
    }

    /// The identifier of a window.
    pub fn instance_id(&self, label: &str) -> (id: Option<String>)
        requires
            self.wf(),
        ensures
            text::content_of(id) == if self@.contains_key(label@) {
                Some(self@[label@].instance_id)
            } else {
                None
            },
    {
        match self.windows.get(label) {
            Some(w) => Some(w.instance_id.clone()),
            None => None,
        }
    }
}

/// A document is marked as dirty exactly where it differs from what was saved.
pub open spec fn honest(w: WindowView) -> bool {
    w.dirty == (w.current_content != w.saved_content)
}

/// A document that was just opened is honest about being dirty, and stays so when its content
/// changes, and when it is saved or renamed.
pub proof fn law_dirty_means_changed(
    instance_id: Seq<char>,
    d: DocumentView,
    given: bool,
    w: WindowView,
    content: Seq<char>,
    path: Seq<char>,
    stem: Option<Seq<char>>,
)
    ensures
        honest(window_showing(instance_id, d, given)),
        honest(synced(w, content)),
        honest(saved(w, path)),
        honest(marked(w, false)),
        honest(w) ==> honest(renamed(w, path, stem)),
{
}

/// To change a document and to change it back leaves it as it was.
pub proof fn law_changing_back_undoes(w: WindowView, content: Seq<char>)
    requires
        honest(w),
    ensures
        synced(synced(w, content), w.current_content) == w,
{
}

/// What was saved is not dirty, and is recorded as saved.
pub proof fn law_saved_is_recorded_as_saved(w: WindowView, path: Seq<char>)
    ensures
        !saved(w, path).dirty,
        record_input(saved(w, path)) == (w.current_content, Some(path), true),
        synced(saved(w, path), w.current_content) == saved(w, path),
{
}

/// A window that is opened shows its document, which is unchanged, and knows where the document's
/// file is, if there is one.
pub proof fn law_windows_show_their_document(id: Seq<char>, d: DocumentView, given: bool)
    ensures
        ({
            let w = window_showing(id, d, given);
            &&& w.instance_id == id
            &&& w.title == d.title
            &&& w.current_content == d.content && w.saved_content == d.content
            &&& w.saved_path == d.path
            &&& w.path_disclosure == (d.path is Some)
            &&& !w.dirty
            &&& w.content_explicitly_set == given
        }),
{
}

/// The document that a window is opened with is that of its file, under the name of the file; where
/// the file cannot be read there is none. Without a file it is the one that was given, or an empty
/// one, under the title that was given.
pub proof fn law_documents_to_open(
    f: FileText,
    body: Option<Seq<char>>,
    title: Option<Seq<char>>,
)
    ensures
        f.text matches Ok(content) ==> (document_to_open(Some(f), body, title) matches Ok(d)
            && d.content == content@ && d.path == Some(f.path@) && (f.stem matches Some(stem)
            ==> d.title == stem@) && (f.stem is None ==> d.title == "Untitled"@)),
        f.text matches Err(why) ==> (document_to_open(Some(f), body, title) matches Err(told)
            && told == "Failed to read file: "@ + why@),
        document_to_open(None, body, title) matches Ok(d) && d.path is None && (body matches Some(b)
            ==> d.content == b) && (body is None ==> d.content.len() == 0) && (title matches Some(t)
            ==> d.title == t) && (title is None ==> d.title == "Untitled"@),
{
}

/// The first window shows the document that was given, if it is not empty; else that of the file,
/// if it can be read; and else an empty one.
pub proof fn law_the_first_document(f: FileText, body: Option<Seq<char>>, title: Option<Seq<char>>)
    ensures
        body matches Some(b) ==> b.len() > 0 ==> {
            let d = first_document(Some(f), body, title);
            d.content == b && d.path is None && d == first_document(None, body, title)
        },
        body is None || body->0.len() == 0 ==> {
            let d = first_document(Some(f), body, title);
            &&& f.text matches Ok(content) ==> d.content == content@ && d.path == Some(f.path@)
            &&& f.text is Ok && f.stem is Some ==> d.title == f.stem->0@
            &&& f.text is Ok && f.stem is None ==> d.title == "Untitled"@
            &&& f.text is Err ==> d == first_document(None, body, title)
            &&& first_document(None, body, title).content.len() == 0
        },
        first_document(None, body, title).path is None,
        title matches Some(t) ==> first_document(None, body, title).title == t,
        title is None ==> first_document(None, body, title).title == "Untitled"@,
{
}

/// What each step does to a window's document, and what it leaves.
pub proof fn law_steps_change_what_they_name(
    w: WindowView,
    content: Seq<char>,
    path: Seq<char>,
    stem: Option<Seq<char>>,
)
    ensures
        ({
            let s = saved(w, path);
            &&& s.saved_path == Some(path) && s.path_disclosure
            &&& s.current_content == w.current_content && s.saved_content == w.current_content
            &&& s.title == w.title && s.instance_id == w.instance_id
            &&& s.content_explicitly_set == w.content_explicitly_set
        }),
        ({
            let s = synced(w, content);
            &&& s.current_content == content && s.saved_content == w.saved_content
            &&& s.dirty <==> content != w.saved_content
            &&& s.saved_path == w.saved_path && s.path_disclosure == w.path_disclosure
            &&& s.title == w.title && s.instance_id == w.instance_id
            &&& s.content_explicitly_set == w.content_explicitly_set
        }),
        ({
            let on = marked(w, true);
            let off = marked(w, false);
            &&& on.dirty && !off.dirty
            &&& on.saved_content == w.saved_content && off.saved_content == w.current_content
            &&& on.current_content == w.current_content && off.current_content == w.current_content
            &&& on.saved_path == w.saved_path && off.saved_path == w.saved_path
            &&& on.path_disclosure == w.path_disclosure && off.path_disclosure == w.path_disclosure
            &&& on.title == w.title && off.title == w.title
            &&& on.instance_id == w.instance_id && off.instance_id == w.instance_id
            &&& on.content_explicitly_set == w.content_explicitly_set
            &&& off.content_explicitly_set == w.content_explicitly_set
        }),
        ({
            let r = renamed(w, path, stem);
            &&& r.saved_path == Some(path) && r.path_disclosure
            &&& stem matches Some(s) ==> r.title == s
            &&& stem is None ==> r.title == "Untitled"@
            &&& r.current_content == w.current_content && r.saved_content == w.saved_content
            &&& r.dirty == w.dirty && r.instance_id == w.instance_id
            &&& r.content_explicitly_set == w.content_explicitly_set
        }),
{
}

/// A step changes the window of its label, if there is one, and no other; it adds none.
pub proof fn law_steps_change_their_window(
    windows: Map<Seq<char>, WindowView>,
    label: Seq<char>,
    w: WindowView,
    other: Seq<char>,
)
    ensures
        ({
            let after = changed(windows, label, w);
            &&& after.contains_key(other) == windows.contains_key(other)
            &&& other != label && windows.contains_key(other) ==> after[other] == windows[other]
            &&& windows.contains_key(label) ==> after[label] == w
        }),
{
}

/// A window's document is recorded with its content, under its path, and as saved exactly where it
/// is not dirty.
pub proof fn law_what_is_recorded_of_a_window(w: WindowView)
    ensures
        record_input(w).0 == w.current_content,
        record_input(w).1 == w.saved_path,
        record_input(w).2 <==> !w.dirty,
{
}

/// The windows that show documents, by their labels.
pub proof fn law_labels_of_documents(rest: Seq<char>, label: Seq<char>)
    ensures
        shows_document("main"@),
        shows_document("doc-"@ + rest),
        shows_document("main-home"@ + rest),
        shows_document(label) ==> label == "main"@ || label == "doc-"@ + label.skip(4) || label
            == "main-home"@ + label.skip(9),
{
    reveal_strlit("doc-");
    reveal_strlit("main-home");
    text::law_prefixes_stand_first(label, "doc-"@, rest);
    text::law_prefixes_stand_first(label, "main-home"@, rest);
}

/// The labels and identifiers of new windows: a word, and the number in four digits. A file's
/// window has the file's identifier.
pub proof fn law_identifiers_of_windows(n: u16, id: Seq<char>, has_body: bool)
    ensures
        label_of(n) == "doc-"@ + text::hex(n as nat, 4),
        instance_of(Some(id), has_body, n) == id,
        instance_of(None, true, n) == "body-"@ + text::hex(n as nat, 4),
        instance_of(None, false, n) == "gui-"@ + text::hex(n as nat, 4),
{
}

/// What follows on each answer: the document is saved on a yes, and lost only on a no; on anything
/// else the window stays.
pub proof fn law_only_a_no_loses_changes(
    a: Answer,
    said: String,
    save: Seq<char>,
    dont_save: Seq<char>,
)
    ensures
        answered(Answer::Yes, save, dont_save) == CloseStep::SaveAndClose,
        answered(Answer::No, save, dont_save) == CloseStep::Close,
        answered(Answer::Other, save, dont_save) == CloseStep::Stay,
        said@ == save ==> answered(Answer::Custom(said), save, dont_save)
            == CloseStep::SaveAndClose,
        answered(a, save, dont_save) == CloseStep::Close ==> a is No || (a matches Answer::Custom(s)
            && s@ == dont_save && s@ != save),
        said@ == dont_save && said@ != save ==> answered(Answer::Custom(said), save, dont_save)
            == CloseStep::Close,
        said@ != dont_save && said@ != save ==> answered(Answer::Custom(said), save, dont_save)
            == CloseStep::Stay,
{
}

/// Which windows show a file, and whether any window is left that shows a document.
pub proof fn law_what_is_left_open(
    windows: Map<Seq<char>, WindowView>,
    label: Seq<char>,
    path: Seq<char>,
)
    ensures
        windows.contains_key(label) && windows[label].saved_path == Some(path) ==> !none_shows(
            windows,
            path,
        ),
        none_shows(windows, path) && windows.contains_key(label) ==> windows[label].saved_path
            != Some(path),
        windows.contains_key(label) && windows[label].instance_id != "about"@ ==> any_document(
            windows,
        ),
        !any_document(windows) && windows.contains_key(label) ==> windows[label].instance_id
            == "about"@,
        windows.contains_key(label) ==> shows_path(windows[label], path) == (
        windows[label].saved_path == Some(path)),
{
    if windows.contains_key(label) && windows[label].saved_path == Some(path) {
        assert(shows_path(windows[label], path));
    }
}

/// A window's document is what its fields hold.
pub proof fn law_windows_hold_what_they_show(w: WindowState)
    ensures
        w@.instance_id == w.instance_id@,
        w@.title == w.title@,
        w@.current_content == w.current_content@,
        w@.saved_content == w.saved_content@,
        w.saved_path matches Some(p) ==> w@.saved_path == Some(p@),
        w.saved_path is None ==> w@.saved_path is None,
        w@.path_disclosure == w.path_disclosure,
        w@.dirty == w.dirty,
        w@.content_explicitly_set == w.content_explicitly_set,
{
}

/// The user is asked before a document's window closes exactly where the document holds something
/// that was not saved: after a change to another content, and no longer once it was saved or
/// changed back. Of other windows nobody is asked.
pub proof fn law_unsaved_changes_are_asked_about(
    windows: Map<Seq<char>, WindowView>,
    label: Seq<char>,
    content: Seq<char>,
    path: Seq<char>,
)
    requires
        windows.contains_key(label),
        shows_document(label),
    ensures
        ({
            let w = windows[label];
            &&& asks_first(changed(windows, label, synced(w, content)), label) <==> content
                != w.saved_content
            &&& !asks_first(changed(windows, label, saved(w, path)), label)
            &&& asks_first(changed(windows, label, marked(w, true)), label)
            &&& !asks_first(changed(windows, label, marked(w, false)), label)
            &&& !asks_first(windows.remove(label), label)
        }),
{
}

/// Nobody is asked of a window that shows no document.
pub proof fn law_other_windows_close_at_once(
    windows: Map<Seq<char>, WindowView>,
    label: Seq<char>,
)
    requires
        !shows_document(label),
    ensures
        !asks_first(windows, label),
        !ends_after(windows, label),
        label != "about"@ ==> left_after(windows, label) == windows,
{
}

/// A document's window that is gone is gone alone, and the program ends with it exactly where no
/// other window shows anything but what the program says about itself.
pub proof fn law_the_last_document_ends_the_program(
    windows: Map<Seq<char>, WindowView>,
    label: Seq<char>,
    other: Seq<char>,
)
    requires
        shows_document(label),
    ensures
        ({
            let left = left_after(windows, label);
            &&& !left.contains_key(label)
            &&& other != label ==> left.contains_key(other) == windows.contains_key(other)
            &&& other != label && windows.contains_key(other) ==> left[other] == windows[other]
            &&& other != label && windows.contains_key(other) && windows[other].instance_id
                != "about"@ ==> !ends_after(windows, label)
            &&& (forall|l: Seq<char>| #[trigger]
                windows.contains_key(l) && l != label ==> windows[l].instance_id == "about"@)
                ==> ends_after(windows, label)
            &&& !left_after(windows, "about"@).contains_key("about"@)
        }),
{
    let left = left_after(windows, label);
    if other != label && windows.contains_key(other) && windows[other].instance_id != "about"@ {
        assert(left.contains_key(other) && left[other].instance_id != "about"@);
    }
    if forall|l: Seq<char>| #[trigger]
        windows.contains_key(l) && l != label ==> windows[l].instance_id == "about"@ {
        assert forall|l: Seq<char>| #[trigger] left.contains_key(l) implies left[l].instance_id
            == "about"@ by {
            assert(windows.contains_key(l) && l != label);
        }
    }
}

/// What a window was opened with is what it begins with; what it was changed to is what is
/// recorded when it is saved; and where it was saved is where it is found. Where there is no window
/// there is nothing of that.
pub proof fn law_windows_give_back_what_they_were_given(
    windows: Map<Seq<char>, WindowView>,
    label: Seq<char>,
    id: Seq<char>,
    d: DocumentView,
    given: bool,
    content: Seq<char>,
    path: Seq<char>,
)
    ensures
        ({
            let opened = windows.insert(label, window_showing(id, d, given));
            let edited = changed(opened, label, synced(opened[label], content));
            let kept = changed(edited, label, saved(edited[label], path));
            &&& beginning(opened, label) == (d.content, d.title, given)
            &&& path_in(opened, label) == d.path
            &&& content_in(edited, label) == Some(content)
            &&& path_in(edited, label) == d.path
            &&& path_in(kept, label) == Some(path)
            &&& content_in(kept, label) == Some(content)
            &&& content_in(opened.remove(label), label) is None
            &&& path_in(opened.remove(label), label) is None
            &&& beginning(opened.remove(label), label).0.len() == 0
            &&& beginning(opened.remove(label), label).1 == "Untitled"@
            &&& !beginning(opened.remove(label), label).2
        }),
{
}

} // verus!
