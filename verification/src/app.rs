//! What the browser does with what the terminal says.
//!
//! A key goes to the line that has the row, else to the question the page is
//! stopped on, else to the path being typed for its file input, else it is one
//! of the program's own, else it is the page's. What has to be done outside —
//! a command to a page, bytes to the terminal — comes out as acts, in the order
//! they are to be done.
use vstd::prelude::*;

use crate::address::{destination, went};
use crate::bar::{
    bar_step, paste_into_bar, paste_into_dialog, paste_into_line, pasted_line, pasted_question,
    Bar, UrlBar,
};
use crate::clipboard::{copy_bytes, osc52, MAX_COPY};
use crate::dialog::{Answer, Dialog, Kind, Question};
use crate::find::{call_of, clear_params, strode, Ask, Step, Stride, Wish};
use crate::fit::Metrics;
use crate::history::{History, Page};
use crate::input::{
    Input, Key, KeyAction, KeyInput, MouseInput, MouseKind, Said, PASTE_LIMIT,
};
use crate::json::{Json, Value};
use crate::keys::{
    command, commanded, insert_text, inserted, send_key, sent_key, survives, survives_dialog,
    Command,
};
use crate::line::{Edit, Line, Typing};
use crate::mouse::{scroll, scrolled, Hand};
use crate::row::{
    asking, is_asking, owner_of, typed_at, typing_line, Owner, Place,
};
use crate::seek::{opened, Find, Hunt};
use crate::strings::{byte_len, chars_of, decimal, decimal_string, is_blank};
use crate::tabs::{
    leaves, lemma_one_changed, Leaf, Problem, Strip, Tab, Tabs, Trouble,
};
use crate::upload::{directory_of, maybe, Offer, Outcome, Upload};

verus! {

/// What the person asked for on the command line.
#[derive(Debug)]
pub struct Options {
    pub url: String,
    /// Where cookies, logins and site data are kept, when they are.
    pub profile: Option<String>,
    /// Where a file a page offers is saved.
    pub download: crate::download::Choice,
    /// Where words typed into the url bar are sent, with `%s` where they go; or
    /// none, in which case what is typed is always a url.
    pub search_url: Option<String>,
}

/// A `Page.navigate` that is out with the engine: on which page, to where, and
/// the ticket its answer will bear.
#[derive(Debug, PartialEq, Eq)]
pub struct Navigation {
    pub target: String,
    pub url: String,
    pub ticket: i64,
}

/// What a [`Navigation`] is.
#[verifier::ext_equal]
pub struct Voyage {
    pub target: Seq<char>,
    pub url: Seq<char>,
    pub ticket: i64,
}

impl View for Navigation {
    type V = Voyage;

    open spec fn view(&self) -> Voyage {
        Voyage { target: self.target@, url: self.url@, ticket: self.ticket }
    }
}

/// Everything the loop decides with that is neither the terminal nor the
/// engine.
#[derive(Debug)]
pub struct Browser {
    pub tabs: Tabs,
    /// The url bar, while the url is being typed.
    pub bar: Option<UrlBar>,
    /// The find prompt, while a needle is being typed.
    pub find: Option<Find>,
    /// The needle the find prompt last closed with, offered by the next.
    pub last_needle: String,
    /// The pages visited, which the url bar offers back.
    pub history: History,
    pub search_url: Option<String>,
    /// The navigation that has been sent and not yet answered.
    pub navigation: Option<Navigation>,
    /// What the mouse has been doing.
    pub hand: Hand,
    pub metrics: Metrics,
    /// Whether the terminal reports the mouse in pixels.
    pub pixels: bool,
    /// The directory the last file was uploaded from.
    pub upload_dir: Option<String>,
}

/// What a [`Browser`] is.
#[verifier::ext_equal]
pub struct Desk {
    pub tabs: Strip,
    pub bar: Option<Bar>,
    pub find: Option<Hunt>,
    pub last_needle: Seq<char>,
    pub visited: Seq<Page>,
    /// Where the log of the pages visited is, when it is kept.
    pub log: Option<Seq<char>>,
    pub search_url: Option<Seq<char>>,
    pub navigation: Option<Voyage>,
    pub hand: Hand,
    pub metrics: Metrics,
    pub pixels: bool,
    pub upload_dir: Option<Seq<char>>,
}

/// What an optional bar is.
pub open spec fn bar_of(bar: Option<UrlBar>) -> Option<Bar> {
    match bar {
        Some(bar) => Some(bar@),
        None => None,
    }
}

/// What an optional prompt is.
pub open spec fn hunt_of(find: Option<Find>) -> Option<Hunt> {
    match find {
        Some(find) => Some(find@),
        None => None,
    }
}

/// What an optional navigation is.
pub open spec fn voyage_of(navigation: Option<Navigation>) -> Option<Voyage> {
    match navigation {
        Some(n) => Some(n@),
        None => None,
    }
}

impl View for Browser {
    type V = Desk;

    open spec fn view(&self) -> Desk {
        Desk {
            tabs: self.tabs@,
            bar: bar_of(self.bar),
            find: hunt_of(self.find),
            last_needle: self.last_needle@,
            visited: self.history@,
            log: self.history.log_path(),
            search_url: maybe(self.search_url),
            navigation: voyage_of(self.navigation),
            hand: self.hand,
            metrics: self.metrics,
            pixels: self.pixels,
            upload_dir: maybe(self.upload_dir),
        }
    }
}

/// Something to be done outside.
#[derive(Debug, PartialEq, Eq)]
pub enum Act {
    /// The program is over.
    Quit,
    /// Draw the row.
    Redraw,
    /// Draw the row, unless the page in front still says this.
    RedrawFrom { line: String },
    /// The person is working on the page: no picture is to be taken of it now.
    Stir,
    /// Bytes for the terminal.
    Write(Vec<u8>),
    /// A command put to a page, whose answer nobody waits for.
    Tell { target: String, method: &'static str, params: Json },
    /// A command put to a page, whose answer is waited for and not looked at.
    Call { target: String, method: &'static str, params: Json },
    /// Send a page somewhere.
    Navigate { target: String, url: String },
    /// Have a page load again.
    Reload { target: String },
    /// Walk a page's own history.
    Walk { target: String, delta: i64 },
    /// Open a page.
    OpenTab,
    /// Close a page in the engine, and the session on it.
    CloseTarget { target: String },
    /// Follow a change of which tab is in front.
    Switched { was: Option<String> },
    /// Forget what the wheel still owes a page.
    Forget,
    /// Have a page paint: size it, tell it that it is in front, and cast it.
    Activate { target: String },
    /// Ask a page what is selected in it.
    Selection { target: String },
    /// Make the find script's world in a page.
    World { target: String },
    /// Collect the answer to a search, and send the next.
    Pump,
    /// Tell a page its file input was dismissed.
    CancelChooser { target: String, node: i64 },
    /// Ask the engine's own history where a page is.
    CurrentUrl { target: String },
    /// A notch of the wheel: where, and how far.
    Scroll { target: String, at: (i32, i32), distance: (i64, i64) },
}

/// What an [`Act`] is.
pub enum Deed {
    Quit,
    Redraw,
    RedrawFrom { line: Seq<char> },
    Stir,
    Write(Seq<u8>),
    Tell { target: Seq<char>, method: Seq<char>, params: Value },
    Call { target: Seq<char>, method: Seq<char>, params: Value },
    Navigate { target: Seq<char>, url: Seq<char> },
    Reload { target: Seq<char> },
    Walk { target: Seq<char>, delta: i64 },
    OpenTab,
    CloseTarget { target: Seq<char> },
    Switched { was: Option<Seq<char>> },
    Forget,
    Activate { target: Seq<char> },
    Selection { target: Seq<char> },
    World { target: Seq<char> },
    Pump,
    CancelChooser { target: Seq<char>, node: i64 },
    CurrentUrl { target: Seq<char> },
    Scroll { target: Seq<char>, at: (i32, i32), distance: (i64, i64) },
}

impl View for Act {
    type V = Deed;

    open spec fn view(&self) -> Deed {
        match *self {
            Act::Quit => Deed::Quit,
            Act::Redraw => Deed::Redraw,
            Act::RedrawFrom { line } => Deed::RedrawFrom { line: line@ },
            Act::Stir => Deed::Stir,
            Act::Write(bytes) => Deed::Write(bytes@),
            Act::Tell { target, method, params } => Deed::Tell {
                target: target@,
                method: method@,
                params: params@,
            },
            Act::Call { target, method, params } => Deed::Call {
                target: target@,
                method: method@,
                params: params@,
            },
            Act::Navigate { target, url } => Deed::Navigate { target: target@, url: url@ },
            Act::Reload { target } => Deed::Reload { target: target@ },
            Act::Walk { target, delta } => Deed::Walk { target: target@, delta },
            Act::OpenTab => Deed::OpenTab,
            Act::CloseTarget { target } => Deed::CloseTarget { target: target@ },
            Act::Switched { was } => Deed::Switched { was: maybe(was) },
            Act::Forget => Deed::Forget,
            Act::Activate { target } => Deed::Activate { target: target@ },
            Act::Selection { target } => Deed::Selection { target: target@ },
            Act::World { target } => Deed::World { target: target@ },
            Act::Pump => Deed::Pump,
            Act::CancelChooser { target, node } => Deed::CancelChooser { target: target@, node },
            Act::CurrentUrl { target } => Deed::CurrentUrl { target: target@ },
            Act::Scroll { target, at, distance } => Deed::Scroll { target: target@, at, distance },
        }
    }
}

/// What some acts are.
pub open spec fn deeds(acts: Seq<Act>) -> Seq<Deed> {
    acts.map_values(|a: Act| a@)
}

/// Acts joined are their deeds joined.
pub proof fn lemma_deeds(a: Seq<Act>, b: Seq<Act>)
    ensures
        deeds(a + b) == deeds(a) + deeds(b),
{
    assert(deeds(a + b) =~= deeds(a) + deeds(b));
}

/// Nothing to do.
pub(crate) fn nothing() -> (r: Vec<Act>)
    ensures
        deeds(r@) == Seq::<Deed>::empty(),
{
    let r: Vec<Act> = Vec::new();
    proof {
        assert(deeds(r@) =~= Seq::<Deed>::empty());
    }
    r
}

/// One thing to do.
pub(crate) fn just(act: Act) -> (r: Vec<Act>)
    ensures
        deeds(r@) == seq![act@],
{
    let r = vec![act];
    proof {
        assert(deeds(r@) =~= seq![act@]);
    }
    r
}

/// Two things to do.
pub(crate) fn both(first: Act, second: Act) -> (r: Vec<Act>)
    ensures
        deeds(r@) == seq![first@, second@],
{
    let r = vec![first, second];
    proof {
        assert(deeds(r@) =~= seq![first@, second@]);
    }
    r
}

/// Three things to do.
pub(crate) fn three(first: Act, second: Act, third: Act) -> (r: Vec<Act>)
    ensures
        deeds(r@) == seq![first@, second@, third@],
{
    let r = vec![first, second, third];
    proof {
        assert(deeds(r@) =~= seq![first@, second@, third@]);
    }
    r
}

/// Some things to do, and one more.
pub(crate) fn and_then_act(acts: Vec<Act>, act: Act) -> (r: Vec<Act>)
    ensures
        deeds(r@) == deeds(acts@).push(act@),
{
    let mut r = acts;
    r.push(act);
    proof {
        assert(deeds(r@) =~= deeds(acts@).push(act@));
    }
    r
}

/// One thing to do, and then some.
fn first_do(act: Act, acts: Vec<Act>) -> (r: Vec<Act>)
    ensures
        deeds(r@) == seq![act@] + deeds(acts@),
{
    let mut r = vec![act];
    let mut rest = acts;
    r.append(&mut rest);
    proof {
        assert(deeds(r@) =~= seq![act@] + deeds(acts@));
    }
    r
}

// ---- copying ----

/// What a copy was of, for the sentence that says it happened.
#[derive(Debug, Clone, Copy, PartialEq, Eq, Structural)]
pub enum Copied {
    Url,
    Text,
}

/// The sentence for a copy that went out: what was copied and how much, never
/// the text itself.
pub open spec fn copied_words(text: Seq<char>, what: Copied) -> Seq<char> {
    match what {
        Copied::Url => "copied url"@,
        Copied::Text => if text.len() == 1 {
            "copied 1 character"@
        } else {
            "copied "@ + decimal(text.len()) + " characters"@
        },
    }
}

/// The sentence for a copy that went out.
pub fn copied(text: &str, what: Copied) -> (r: String)
    ensures
        r@ == copied_words(text@, what),
{
    match what {
        Copied::Url => "copied url".to_owned(),
        Copied::Text => {
            let chars = chars_of(text);
            let n: usize = chars.len();
            if n == 1 {
                "copied 1 character".to_owned()
            } else {
                let mut out = "copied ".to_owned().concat(decimal_string(n as u64).as_str());
                out.append(" characters");
                out
            }
        },
    }
}

/// How many KiB a number of bytes is, rounded up.
pub open spec fn kib(bytes: int) -> int {
    (bytes + 1023) / 1024
}

/// The sentence for a copy that is too large.
pub open spec fn copy_refused() -> Seq<char> {
    "copy refused: over "@ + decimal((MAX_COPY / 1024) as nat) + " KiB"@
}

/// The sentence for a paste that is too large.
pub open spec fn paste_refused(bytes: usize) -> Seq<char> {
    "paste refused: "@ + decimal(kib(bytes as int) as nat) + " KiB is over "@ + decimal(
        (PASTE_LIMIT / 1024) as nat,
    ) + " KiB"@
}

/// The sentence for a page on its way.
pub open spec fn loading(url: Seq<char>) -> Seq<char> {
    "loading "@ + url
}

impl Desk {
    /// What has the row.
    pub open spec fn owner(self) -> Option<Owner> {
        owner_of(
            self.tabs,
            match self.bar {
                Some(bar) => Some(bar.line),
                None => None,
            },
            match self.find {
                Some(hunt) => Some((hunt.line, hunt.matches)),
                None => None,
            },
        )
    }

    /// With a sentence on the row of the page in front.
    pub open spec fn noted(self, sentence: Seq<char>) -> Desk {
        Desk { tabs: self.tabs.noted(sentence), ..self }
    }

    /// With another page in front, in the same place.
    pub open spec fn with_front(self, leaf: Leaf) -> Desk {
        Desk { tabs: self.tabs.with_front(leaf), ..self }
    }

    /// The url of the page in front.
    pub open spec fn front_url(self) -> Seq<char> {
        match self.tabs.active() {
            Some(leaf) => leaf.url,
            None => Seq::empty(),
        }
    }

    /// A text put on the host's clipboard. Nothing is written for nothing at
    /// all: to some terminals that is an instruction to clear the clipboard.
    pub open spec fn copied_out(self, text: Seq<char>, what: Copied) -> (Desk, Seq<Deed>) {
        if text.len() == 0 {
            (self.noted("nothing to copy"@), Seq::empty())
        } else if byte_len(text) > MAX_COPY {
            (self.noted(copy_refused()), Seq::empty())
        } else {
            (self.noted(copied_words(text, what)), seq![Deed::Write(copy_bytes(text))])
        }
    }

    /// The copy keys, while a line is being typed on the row; nothing when the
    /// key is neither.
    pub open spec fn copied_from_row(self, key: KeyInput, typed: Seq<char>) -> Option<
        (Desk, Seq<Deed>),
    > {
        match commanded(key) {
            Some(Command::CopySelection) => Some(self.copied_out(typed, Copied::Text)),
            Some(Command::CopyUrl) => Some(self.copied_out(self.front_url(), Copied::Url)),
            _ => None,
        }
    }

    /// The page in front sent to a url that was typed.
    pub open spec fn sent_to(self, url: Seq<char>) -> (Desk, Seq<Deed>) {
        match self.tabs.active() {
            Some(leaf) => (
                self.with_front(
                    Leaf {
                        url,
                        note: Some(loading(url)),
                        loading: true,
                        ..leaf
                    },
                ),
                seq![Deed::Navigate { target: leaf.target, url }, Deed::Redraw],
            ),
            None => (self, seq![Deed::Redraw]),
        }
    }

    /// A key typed into the url bar.
    pub open spec fn url_edited(self, key: KeyInput) -> (Desk, Seq<Deed>) {
        match self.bar {
            Some(bar) => if key.action == KeyAction::Release {
                (self, Seq::empty())
            } else {
                match self.copied_from_row(key, bar.line.text) {
                    Some(done) => done,
                    None => {
                        let (after, edit) = bar.stepped(self.visited, key);
                        match edit {
                            Edit::Quit => (
                                Desk { bar: Some(after), ..self },
                                seq![Deed::Quit],
                            ),
                            Edit::Cancel => (Desk { bar: None, ..self }, seq![Deed::Redraw]),
                            Edit::Go => (Desk { bar: None, ..self }).sent_to(
                                went(after.line.text, self.search_url),
                            ),
                            _ => (Desk { bar: Some(after), ..self }, seq![Deed::Redraw]),
                        }
                    },
                }
            },
            None => (self, Seq::empty()),
        }
    }

    /// The find prompt closed, from wherever it is closed: the needle is
    /// remembered, and the page it was searching is told to clear.
    pub open spec fn find_closed(self) -> (Desk, Seq<Deed>) {
        match self.find {
            Some(hunt) => (
                Desk { find: None, last_needle: hunt.line.text, ..self },
                match hunt.context {
                    Some(context) => if self.tabs.place(hunt.target) < self.tabs.leaves.len() {
                        seq![
                            Deed::Tell {
                                target: hunt.target,
                                method: "Runtime.callFunctionOn"@,
                                params: call_of(
                                    context,
                                    Wish { needle: Seq::empty(), step: 0 },
                                ),
                            },
                        ]
                    } else {
                        Seq::empty()
                    },
                    None => Seq::empty(),
                },
            ),
            None => (self, Seq::empty()),
        }
    }

    /// A key typed into the find prompt.
    pub open spec fn find_edited(self, key: KeyInput) -> (Desk, Seq<Deed>) {
        match self.find {
            Some(hunt) => if key.action == KeyAction::Release {
                (self, Seq::empty())
            } else {
                match self.copied_from_row(key, hunt.line.text) {
                    Some(done) => done,
                    None => {
                        let (line, stride) = strode(hunt.line, key);
                        let after = Hunt { line, ..hunt };
                        match stride {
                            Stride::Typing(None) => (
                                Desk { find: Some(after), ..self },
                                seq![Deed::Pump, Deed::Redraw],
                            ),
                            Stride::Typing(Some(ask)) => (
                                Desk { find: Some(after.wanting(ask)), ..self },
                                seq![Deed::Pump, Deed::Redraw],
                            ),
                            Stride::Close => {
                                let (desk, told) = (Desk {
                                    find: Some(after),
                                    ..self
                                }).find_closed();
                                (desk, told.push(Deed::Pump).push(Deed::Redraw))
                            },
                            Stride::Quit => (
                                Desk { find: Some(after), ..self },
                                seq![Deed::Quit],
                            ),
                        }
                    },
                }
            },
            None => (self, Seq::empty()),
        }
    }

    /// A key, as the answer to the dialog on the page in front. Answered, the
    /// dialog comes off at once; a page that asked to be left and was told no
    /// is where it was.
    pub open spec fn dialog_answered(self, key: KeyInput) -> (Desk, Seq<Deed>) {
        match self.tabs.active() {
            Some(leaf) => match leaf.dialog {
                Some(q) => {
                    let (after, answer) = q.stepped(key);
                    let stay = q.kind == Kind::BeforeUnload && answer == Answer::Dismiss;
                    match answer {
                        Answer::Waiting => (
                            self.with_front(Leaf { dialog: Some(after), ..leaf }),
                            seq![Deed::Redraw],
                        ),
                        Answer::Quit => (
                            self.with_front(Leaf { dialog: Some(after), ..leaf }),
                            seq![Deed::Quit],
                        ),
                        _ => {
                            let tell = Deed::Tell {
                                target: leaf.target,
                                method: "Page.handleJavaScriptDialog"@,
                                params: after.replied(answer),
                            };
                            if stay {
                                (
                                    self.with_front(
                                        Leaf {
                                            dialog: None,
                                            note: None,
                                            loading: false,
                                            ..leaf
                                        },
                                    ),
                                    seq![
                                        tell,
                                        Deed::CurrentUrl { target: leaf.target },
                                        Deed::Redraw,
                                    ],
                                )
                            } else {
                                (
                                    self.with_front(Leaf { dialog: None, ..leaf }),
                                    seq![tell, Deed::Redraw],
                                )
                            }
                        },
                    }
                },
                None => (self, Seq::empty()),
            },
            None => (self, Seq::empty()),
        }
    }

    /// A key, as typing into the path for the file input on the page in front.
    pub open spec fn upload_answered(self, key: KeyInput) -> (Desk, Seq<Deed>) {
        match self.tabs.active() {
            Some(leaf) => match leaf.upload {
                Some(offer) => {
                    let (after, outcome) = offer.stepped(key);
                    match outcome {
                        Outcome::Waiting => (
                            self.with_front(Leaf { upload: Some(after), ..leaf }),
                            seq![Deed::Redraw],
                        ),
                        Outcome::Quit => (
                            self.with_front(Leaf { upload: Some(after), ..leaf }),
                            seq![Deed::Quit],
                        ),
                        Outcome::Send => (
                            Desk {
                                upload_dir: Some(directory_of(after.path())),
                                ..self.with_front(
                                    Leaf {
                                        upload: None,
                                        note: Some("sent "@ + after.path()),
                                        ..leaf
                                    },
                                )
                            },
                            seq![
                                Deed::Tell {
                                    target: leaf.target,
                                    method: "DOM.setFileInputFiles"@,
                                    params: after.replied(),
                                },
                                Deed::Redraw,
                            ],
                        ),
                        Outcome::Cancel => (
                            self.with_front(Leaf { upload: None, ..leaf }),
                            seq![
                                Deed::CancelChooser { target: leaf.target, node: after.node },
                                Deed::Redraw,
                            ],
                        ),
                    }
                },
                None => (self, Seq::empty()),
            },
            None => (self, Seq::empty()),
        }
    }

    /// The tabs after one of the keys that choose between them, and what
    /// follows when that put another in front.
    pub open spec fn moved_to(self, tabs: Strip) -> (Desk, Seq<Deed>) {
        (
            Desk { tabs, ..self },
            if tabs.front != self.tabs.front {
                seq![Deed::Switched { was: self.tabs.active_target() }, Deed::Redraw]
            } else {
                Seq::empty()
            },
        )
    }

    /// A page that did not come is navigated to again, since that says why it
    /// failed again; any other is loaded again.
    pub open spec fn reloaded(self) -> (Desk, Seq<Deed>) {
        match self.tabs.active() {
            Some(leaf) => match leaf.problem {
                Some(Trouble::Unreachable { url, .. }) => (
                    self.with_front(
                        Leaf { note: Some(loading(url)), loading: true, ..leaf },
                    ),
                    seq![
                        Deed::Redraw,
                        Deed::Navigate { target: leaf.target, url },
                        Deed::Redraw,
                    ],
                ),
                _ => (self, seq![Deed::Reload { target: leaf.target }]),
            },
            None => (self, Seq::empty()),
        }
    }

    /// One of the program's own keys.
    pub open spec fn commanded(self, command: Command) -> (Desk, Seq<Deed>) {
        match command {
            Command::Quit => (self, seq![Deed::Quit]),
            Command::EditUrl => (
                Desk {
                    bar: match self.tabs.active() {
                        Some(leaf) => Some(
                            Bar {
                                line: Typing {
                                    text: leaf.url,
                                    cursor: leaf.url.len() as int,
                                    whole: true,
                                    hint: Seq::empty(),
                                },
                                walk: None,
                            },
                        ),
                        None => None,
                    },
                    ..self
                },
                seq![Deed::Redraw],
            ),
            Command::Find => match self.tabs.active() {
                Some(leaf) => (
                    Desk { find: Some(opened(leaf.target, self.last_needle, None)), ..self },
                    seq![Deed::World { target: leaf.target }, Deed::Pump, Deed::Redraw],
                ),
                None => (self, seq![Deed::Redraw]),
            },
            Command::Reload => self.reloaded(),
            Command::Back => self.walked((-1) as i64),
            Command::Forward => self.walked(1),
            Command::NewTab => (self, seq![Deed::OpenTab]),
            Command::CloseTab => if self.tabs.leaves.len() < 2 {
                (self, seq![Deed::Quit])
            } else {
                let target = self.tabs.active_target();
                (
                    Desk { tabs: self.tabs.closed(self.tabs.front), ..self },
                    seq![
                        Deed::CloseTarget { target: target->Some_0 },
                        Deed::Switched { was: target },
                        Deed::Redraw,
                    ],
                )
            },
            Command::NextTab => self.moved_to(self.tabs.next()),
            Command::PreviousTab => self.moved_to(self.tabs.previous()),
            Command::SelectTab(number) => self.moved_to(self.tabs.chosen(number as int)),
            Command::CopyUrl => {
                let (desk, written) = self.copied_out(self.front_url(), Copied::Url);
                (desk, written.push(Deed::Redraw))
            },
            Command::CopySelection => match self.tabs.active() {
                Some(leaf) => (self, seq![Deed::Selection { target: leaf.target }]),
                None => (self, seq![Deed::Redraw]),
            },
        }
    }

    /// The page in front walked by one entry of its own history.
    pub open spec fn walked(self, delta: i64) -> (Desk, Seq<Deed>) {
        match self.tabs.active() {
            Some(leaf) => (self, seq![Deed::Walk { target: leaf.target, delta }]),
            None => (self, Seq::empty()),
        }
    }

    /// A key that is the page's.
    pub open spec fn key_sent(self, key: KeyInput) -> (Desk, Seq<Deed>) {
        match self.tabs.active() {
            Some(leaf) => match sent_key(key) {
                Some((method, params)) => (
                    self,
                    seq![Deed::Tell { target: leaf.target, method, params }],
                ),
                None => (self, Seq::empty()),
            },
            None => (self, Seq::empty()),
        }
    }

    /// A key that no line on the row takes.
    ///
    /// While the page in front waits on an answer, or a path is being typed for
    /// it, the tab keys still work, because leaving the question where it is is
    /// an answer too; the rest wait, and every key that is not one of the
    /// program's is the answer.
    pub open spec fn key_pressed(self, key: KeyInput) -> (Desk, Seq<Deed>) {
        let command = commanded(key);
        let waits = match command {
            Some(c) => !survives(c),
            None => true,
        };
        let question = match self.tabs.active() {
            Some(leaf) => leaf.dialog,
            None => None,
        };
        let path = match self.tabs.active() {
            Some(leaf) => leaf.upload,
            None => None,
        };
        if question is Some && waits {
            match command {
                Some(Command::CopySelection) => if question->Some_0.kind == Kind::Prompt {
                    let (desk, written) = self.copied_out(
                        question->Some_0.line.text,
                        Copied::Text,
                    );
                    (desk, written.push(Deed::Redraw))
                } else {
                    (self, Seq::empty())
                },
                Some(_) => (self, Seq::empty()),
                None => self.dialog_answered(key),
            }
        } else if path is Some && waits {
            match command {
                Some(Command::CopySelection) => {
                    let (desk, written) = self.copied_out(path->Some_0.line.text, Copied::Text);
                    (desk, written.push(Deed::Redraw))
                },
                Some(_) => (self, Seq::empty()),
                None => self.upload_answered(key),
            }
        } else {
            match command {
                Some(c) => self.commanded(c),
                None => self.key_sent(key),
            }
        }
    }

    /// A key. A release moves nothing of itself.
    pub open spec fn keyed(self, key: KeyInput) -> (Desk, Seq<Deed>) {
        let (desk, acts) = match typed_at(self.owner()) {
            Some(Place::Url) => self.url_edited(key),
            Some(Place::Find) => self.find_edited(key),
            _ => self.key_pressed(key),
        };
        (
            desk,
            if key.action != KeyAction::Release {
                seq![Deed::Stir] + acts
            } else {
                acts
            },
        )
    }

    /// A paste, put wherever the typing is, or into the page whole. On an alert,
    /// a confirm or a "leave this page?" it is dropped.
    pub open spec fn pasted(self, text: Seq<char>) -> (Desk, Seq<Deed>) {
        match typed_at(self.owner()) {
            Some(Place::Url) => (
                Desk {
                    bar: match self.bar {
                        Some(bar) => Some(bar.pasted(self.visited, text)),
                        None => None,
                    },
                    ..self
                },
                seq![Deed::Redraw],
            ),
            Some(Place::Find) => (
                Desk {
                    find: match self.find {
                        Some(hunt) => {
                            let (line, changed) = pasted_line(hunt.line, text);
                            Some(
                                if changed {
                                    (Hunt { line, ..hunt }).wanting(
                                        Wish { needle: line.text, step: 0 },
                                    )
                                } else {
                                    hunt
                                },
                            )
                        },
                        None => None,
                    },
                    ..self
                },
                seq![Deed::Pump, Deed::Redraw],
            ),
            _ => match self.tabs.active() {
                Some(leaf) => match (leaf.dialog, leaf.upload) {
                    (Some(q), _) => {
                        let (after, taken) = pasted_question(q, text);
                        (
                            self.with_front(Leaf { dialog: Some(after), ..leaf }),
                            if taken {
                                seq![Deed::Redraw]
                            } else {
                                Seq::empty()
                            },
                        )
                    },
                    (None, Some(offer)) => (
                        self.with_front(
                            Leaf {
                                upload: Some(
                                    Offer { line: pasted_line(offer.line, text).0, ..offer },
                                ),
                                ..leaf
                            },
                        ),
                        seq![Deed::Redraw],
                    ),
                    (None, None) => (
                        self,
                        seq![
                            Deed::Tell {
                                target: leaf.target,
                                method: "Input.insertText"@,
                                params: inserted(text),
                            },
                        ],
                    ),
                },
                None => (self, Seq::empty()),
            },
        }
    }

    /// A mouse report. A page with a question open is not one to click on or to
    /// scroll: what was sent would land on it the moment it was answered.
    pub open spec fn moused(self, report: MouseInput, now: u64) -> (Desk, Seq<Deed>) {
        if is_asking(self.tabs) {
            (self, Seq::empty())
        } else if report.kind == MouseKind::Wheel {
            (
                self,
                match (scrolled(report, self.pixels, self.metrics.cell), self.tabs.active()) {
                    (Some((at, distance)), Some(leaf)) => seq![
                        Deed::Stir,
                        Deed::Scroll { target: leaf.target, at, distance },
                    ],
                    _ => seq![Deed::Stir],
                },
            )
        } else {
            match self.tabs.active() {
                Some(leaf) => {
                    let (hand, event) = self.hand.reported(
                        report,
                        self.pixels,
                        self.metrics.cell,
                        now,
                    );
                    (
                        Desk { hand, ..self },
                        match event {
                            Some(params) => seq![
                                Deed::Tell {
                                    target: leaf.target,
                                    method: "Input.dispatchMouseEvent"@,
                                    params,
                                },
                            ],
                            None => Seq::empty(),
                        },
                    )
                },
                None => (self, Seq::empty()),
            }
        }
    }

    /// One thing the terminal said: what there is after it, and what is to be
    /// done.
    pub open spec fn handled(self, said: Said, now: u64) -> (Desk, Seq<Deed>) {
        match said {
            Said::Mode => (self, Seq::empty()),
            Said::PasteRefused { bytes } => (
                self.noted(paste_refused(bytes)),
                seq![Deed::Redraw],
            ),
            Said::Paste(text) => {
                let (desk, acts) = self.pasted(text);
                (desk, seq![Deed::Stir] + acts)
            },
            Said::Key(key) => self.keyed(key),
            Said::Mouse(report) => self.moused(report, now),
        }
    }
}

impl Browser {
    /// What is being typed can be typed into, one of the tabs is in front, and
    /// the pages visited are in order.
    pub open spec fn wf(self) -> bool {
        &&& self.tabs.wf()
        &&& (self.bar matches Some(bar) ==> bar.wf())
        &&& (self.find matches Some(find) ==> find.wf())
        &&& self.history.wf()
    }

    /// A browser with one page, and nothing being typed.
    pub fn new(
        tab: Tab,
        history: History,
        search_url: Option<String>,
        metrics: Metrics,
        pixels: bool,
    ) -> (r: Browser)
        requires
            tab.wf(),
            history.wf(),
        ensures
            r.wf(),
            r@ == (Desk {
                tabs: Strip { leaves: seq![tab@], front: 0 },
                bar: None,
                find: None,
                last_needle: Seq::empty(),
                visited: history@,
                log: history.log_path(),
                search_url: maybe(search_url),
                navigation: None,
                hand: Hand { clicks: crate::mouse::Clicks { at: None, count: 0 }, buttons: 0 },
                metrics,
                pixels,
                upload_dir: None,
            }),
    {
        Browser {
            tabs: Tabs::new(tab),
            bar: None,
            find: None,
            last_needle: String::new(),
            history,
            search_url,
            navigation: None,
            hand: Hand::default(),
            metrics,
            pixels,
            upload_dir: None,
        }
    }

    /// The line that a key, a paste and the cursor go to.
    pub fn place(&self) -> (r: Option<Place>)
        requires
            self.wf(),
        ensures
            r == typed_at(self@.owner()),
    {
        let bar = match &self.bar {
            Some(bar) => Some(bar),
            None => None,
        };
        let find = match &self.find {
            Some(find) => Some(&find.finder),
            None => None,
        };
        typing_line(&self.tabs, bar, find)
    }

    /// A sentence on the row of the page in front.
    pub(crate) fn note(&mut self, sentence: String)
        requires
            old(self).wf(),
        ensures
            final(self).wf(),
            final(self)@ == old(self)@.noted(sentence@),
    {
        self.tabs.note(sentence);
    }

    /// The url of the page in front.
    fn front_url(&self) -> (r: String)
        requires
            self.wf(),
        ensures
            r@ == self@.front_url(),
    {
        match self.tabs.active() {
            Some(tab) => tab.url.clone(),
            None => String::new(),
        }
    }

    /// Put `text` on the host's clipboard, by way of the terminal, and say so
    /// on the row.
    pub(crate) fn copy_out(&mut self, text: &str, what: Copied) -> (r: Vec<Act>)
        requires
            old(self).wf(),
        ensures
            final(self).wf(),
            (final(self)@, deeds(r@)) == old(self)@.copied_out(text@, what),
    {
        if is_blank(text) {
            self.note("nothing to copy".to_owned());
            return nothing();
        }
        match osc52(text) {
            Some(bytes) => {
                self.note(copied(text, what));
                just(Act::Write(bytes))
            },
            None => {
                let mut words = "copy refused: over ".to_owned();
                words.append(decimal_string((MAX_COPY / 1024) as u64).as_str());
                words.append(" KiB");
                self.note(words);
                nothing()
            },
        }
    }

    /// The copy keys, while a line is being typed on the row: they leave the
    /// line as it is. `None` when the key is neither.
    fn copy_from_row(&mut self, key: &KeyInput, typed: &str) -> (r: Option<Vec<Act>>)
        requires
            old(self).wf(),
        ensures
            final(self).wf(),
            match r {
                Some(acts) => old(self)@.copied_from_row(*key, typed@) == Some(
                    (final(self)@, deeds(acts@)),
                ),
                None => old(self)@.copied_from_row(*key, typed@) is None && *final(self) == *old(
                    self,
                ),
            },
    {
        match command(key) {
            Some(Command::CopySelection) => Some(self.copy_out(typed, Copied::Text)),
            Some(Command::CopyUrl) => {
                let url = self.front_url();
                Some(self.copy_out(url.as_str(), Copied::Url))
            },
            _ => None,
        }
    }

    /// Send the page in front to a url that was typed.
    fn send_to(&mut self, url: String) -> (r: Vec<Act>)
        requires
            old(self).wf(),
        ensures
            final(self).wf(),
            (final(self)@, deeds(r@)) == old(self)@.sent_to(url@),
    {
        let i = self.tabs.front;
        if i >= self.tabs.list.len() {
            return just(Act::Redraw);
        }
        let ghost before = self.tabs.list@;
        let target = self.tabs.list[i].target.clone();
        let note = "loading ".to_owned().concat(url.as_str());
        let tab = &mut self.tabs.list[i];
        tab.url = url.clone();
        tab.note = Some(note);
        tab.loading = true;
        proof {
            lemma_one_changed(before, self.tabs.list@, i as int);
            assert(self@ =~= old(self)@.sent_to(url@).0);
        }
        both(Act::Navigate { target, url }, Act::Redraw)
    }

    /// Type into the url bar.
    fn edit_url(&mut self, key: &KeyInput) -> (r: Vec<Act>)
        requires
            old(self).wf(),
        ensures
            final(self).wf(),
            (final(self)@, deeds(r@)) == old(self)@.url_edited(*key),
    {
        if key.action == KeyAction::Release {
            return nothing();
        }
        let typed = match &self.bar {
            Some(bar) => bar.line.text.clone(),
            None => return nothing(),
        };
        match self.copy_from_row(key, typed.as_str()) {
            Some(acts) => return acts,
            None => {},
        }
        let mut open: Option<UrlBar> = None;
        std::mem::swap(&mut open, &mut self.bar);
        match open {
            Some(mut bar) => {
                let edit = bar_step(&mut bar, &self.history, key);
                match edit {
                    Edit::Quit => {
                        self.bar = Some(bar);
                        just(Act::Quit)
                    },
                    Edit::Cancel => just(Act::Redraw),
                    Edit::Go => {
                        let search_url = match &self.search_url {
                            Some(s) => Some(s.as_str()),
                            None => None,
                        };
                        let url = destination(bar.line.text(), search_url);
                        self.send_to(url)
                    },
                    _ => {
                        self.bar = Some(bar);
                        just(Act::Redraw)
                    },
                }
            },
            None => nothing(),
        }
    }

    /// Close the find prompt. Dropping the search still out withdraws the claim
    /// on its answer.
    pub fn close_find(&mut self) -> (r: Vec<Act>)
        requires
            old(self).wf(),
        ensures
            final(self).wf(),
            (final(self)@, deeds(r@)) == old(self)@.find_closed(),
    {
        let mut open: Option<Find> = None;
        std::mem::swap(&mut open, &mut self.find);
        match open {
            Some(find) => {
                let known = self.tabs.index_of(find.target.as_str()).is_some();
                self.last_needle = find.finder.line.text;
                match find.context {
                    Some(context) => if known {
                        just(
                            Act::Tell {
                                target: find.target,
                                method: "Runtime.callFunctionOn",
                                params: clear_params(context),
                            },
                        )
                    } else {
                        nothing()
                    },
                    None => nothing(),
                }
            },
            None => nothing(),
        }
    }

    /// Type into the find prompt. What the key asks of the page is folded into
    /// what is waiting.
    fn edit_find(&mut self, key: &KeyInput) -> (r: Vec<Act>)
        requires
            old(self).wf(),
        ensures
            final(self).wf(),
            (final(self)@, deeds(r@)) == old(self)@.find_edited(*key),
    {
        if key.action == KeyAction::Release {
            return nothing();
        }
        let typed = match &self.find {
            Some(find) => find.finder.line.text.clone(),
            None => return nothing(),
        };
        match self.copy_from_row(key, typed.as_str()) {
            Some(acts) => return acts,
            None => {},
        }
        let mut open: Option<Find> = None;
        std::mem::swap(&mut open, &mut self.find);
        match open {
            Some(mut find) => {
                let ghost hunt = find@;
                let step = find.finder.step(key);
                proof {
                    assert(find@ =~= (Hunt { line: strode(hunt.line, *key).0, ..hunt }));
                }
                match step {
                    Step::Typing(asked) => {
                        match asked {
                            Some(ask) => find.want(ask),
                            None => {},
                        }
                        self.find = Some(find);
                        both(Act::Pump, Act::Redraw)
                    },
                    Step::Close => {
                        self.find = Some(find);
                        let told = self.close_find();
                        and_then_act(and_then_act(told, Act::Pump), Act::Redraw)
                    },
                    Step::Quit => {
                        self.find = Some(find);
                        just(Act::Quit)
                    },
                }
            },
            None => nothing(),
        }
    }

    /// A key, as the answer to the dialog on the page in front.
    fn answer_dialog(&mut self, key: &KeyInput) -> (r: Vec<Act>)
        requires
            old(self).wf(),
        ensures
            final(self).wf(),
            (final(self)@, deeds(r@)) == old(self)@.dialog_answered(*key),
    {
        let i = self.tabs.front;
        if i >= self.tabs.list.len() {
            return nothing();
        }
        let ghost before = self.tabs.list@;
        proof {
            assert(before[i as int].wf());
            assert(self@.tabs.leaves[i as int] == before[i as int]@);
        }
        let target = self.tabs.list[i].target.clone();
        let tab = &mut self.tabs.list[i];
        let mut open: Option<Dialog> = None;
        std::mem::swap(&mut open, &mut tab.dialog);
        match open {
            Some(mut dialog) => {
                let answer = dialog.step(key);
                match answer {
                    Answer::Waiting => {
                        tab.dialog = Some(dialog);
                        proof {
                            lemma_one_changed(before, self.tabs.list@, i as int);
                            assert(self@ =~= old(self)@.dialog_answered(*key).0);
                        }
                        just(Act::Redraw)
                    },
                    Answer::Quit => {
                        tab.dialog = Some(dialog);
                        proof {
                            lemma_one_changed(before, self.tabs.list@, i as int);
                            assert(self@ =~= old(self)@.dialog_answered(*key).0);
                        }
                        just(Act::Quit)
                    },
                    _ => {
                        let params = dialog.reply(answer);
                        let stay = dialog.kind == Kind::BeforeUnload && answer == Answer::Dismiss;
                        let tell = Act::Tell {
                            target: target.clone(),
                            method: "Page.handleJavaScriptDialog",
                            params,
                        };
                        if stay {
                            tab.note = None;
                            tab.loading = false;
                            proof {
                                lemma_one_changed(before, self.tabs.list@, i as int);
                                assert(self@ =~= old(self)@.dialog_answered(*key).0);
                            }
                            three(tell, Act::CurrentUrl { target }, Act::Redraw)
                        } else {
                            proof {
                                lemma_one_changed(before, self.tabs.list@, i as int);
                                assert(self@ =~= old(self)@.dialog_answered(*key).0);
                            }
                            both(tell, Act::Redraw)
                        }
                    },
                }
            },
            None => {
                proof {
                    lemma_one_changed(before, self.tabs.list@, i as int);
                    assert(self@ =~= old(self)@);
                }
                nothing()
            },
        }
    }

    /// A key, as typing into the path for the file input on the page in front.
    fn answer_upload(&mut self, key: &KeyInput) -> (r: Vec<Act>)
        requires
            old(self).wf(),
        ensures
            final(self).wf(),
            (final(self)@, deeds(r@)) == old(self)@.upload_answered(*key),
    {
        let i = self.tabs.front;
        if i >= self.tabs.list.len() {
            return nothing();
        }
        let ghost before = self.tabs.list@;
        proof {
            assert(before[i as int].wf());
            assert(self@.tabs.leaves[i as int] == before[i as int]@);
        }
        let target = self.tabs.list[i].target.clone();
        let tab = &mut self.tabs.list[i];
        let mut open: Option<Upload> = None;
        std::mem::swap(&mut open, &mut tab.upload);
        match open {
            Some(mut upload) => match upload.step(key) {
                Outcome::Waiting => {
                    tab.upload = Some(upload);
                    proof {
                        lemma_one_changed(before, self.tabs.list@, i as int);
                        assert(self@ =~= old(self)@.upload_answered(*key).0);
                    }
                    just(Act::Redraw)
                },
                Outcome::Quit => {
                    tab.upload = Some(upload);
                    proof {
                        lemma_one_changed(before, self.tabs.list@, i as int);
                        assert(self@ =~= old(self)@.upload_answered(*key).0);
                    }
                    just(Act::Quit)
                },
                Outcome::Send => {
                    let params = upload.reply();
                    tab.note = Some(upload.sentence());
                    self.upload_dir = Some(upload.last_dir());
                    proof {
                        lemma_one_changed(before, self.tabs.list@, i as int);
                        assert(self@ =~= old(self)@.upload_answered(*key).0);
                    }
                    both(
                        Act::Tell { target, method: "DOM.setFileInputFiles", params },
                        Act::Redraw,
                    )
                },
                Outcome::Cancel => {
                    let node = upload.chooser.backend_node_id;
                    proof {
                        lemma_one_changed(before, self.tabs.list@, i as int);
                        assert(self@ =~= old(self)@.upload_answered(*key).0);
                    }
                    both(Act::CancelChooser { target, node }, Act::Redraw)
                },
            },
            None => {
                proof {
                    lemma_one_changed(before, self.tabs.list@, i as int);
                    assert(self@ =~= old(self)@);
                }
                nothing()
            },
        }
    }

    /// Load the page in front again.
    fn reload(&mut self) -> (r: Vec<Act>)
        requires
            old(self).wf(),
        ensures
            final(self).wf(),
            (final(self)@, deeds(r@)) == old(self)@.reloaded(),
    {
        let i = self.tabs.front;
        if i >= self.tabs.list.len() {
            return nothing();
        }
        let ghost before = self.tabs.list@;
        proof {
            assert(before[i as int].wf());
            assert(self@.tabs.leaves[i as int] == before[i as int]@);
        }
        let target = self.tabs.list[i].target.clone();
        let url = match &self.tabs.list[i].problem {
            Some(Problem::Unreachable { url, .. }) => url.clone(),
            _ => return just(Act::Reload { target }),
        };
        let note = "loading ".to_owned().concat(url.as_str());
        let tab = &mut self.tabs.list[i];
        tab.note = Some(note);
        tab.loading = true;
        proof {
            lemma_one_changed(before, self.tabs.list@, i as int);
            assert(self@ =~= old(self)@.reloaded().0);
        }
        three(Act::Redraw, Act::Navigate { target, url }, Act::Redraw)
    }

    /// The target of the page in front, for something to be done to it.
    fn walk_by(&self, delta: i64) -> (r: Vec<Act>)
        requires
            self.wf(),
        ensures
            deeds(r@) == self@.walked(delta).1,
    {
        match self.tabs.active() {
            Some(tab) => just(Act::Walk { target: tab.target.clone(), delta }),
            None => nothing(),
        }
    }

    /// One of the program's own keys.
    fn run(&mut self, command: Command) -> (r: Vec<Act>)
        requires
            old(self).wf(),
        ensures
            final(self).wf(),
            (final(self)@, deeds(r@)) == old(self)@.commanded(command),
    {
        match command {
            Command::Quit => just(Act::Quit),
            Command::EditUrl => {
                self.bar = match self.tabs.active() {
                    Some(tab) => Some(UrlBar::new(Line::selected(tab.url.as_str()))),
                    None => None,
                };
                just(Act::Redraw)
            },
            Command::Find => match self.tabs.active() {
                Some(tab) => {
                    let target = tab.target.clone();
                    self.find = Some(
                        Find::open(target.as_str(), self.last_needle.as_str(), None),
                    );
                    three(Act::World { target }, Act::Pump, Act::Redraw)
                },
                None => just(Act::Redraw),
            },
            Command::Reload => self.reload(),
            Command::Back => self.walk_by(-1),
            Command::Forward => self.walk_by(1),
            Command::NewTab => just(Act::OpenTab),
            Command::CloseTab => {
                if self.tabs.len() < 2 {
                    return just(Act::Quit);
                }
                let was = self.tabs.active_target();
                let i = self.tabs.front;
                match self.tabs.close(i) {
                    Some(tab) => three(
                        Act::CloseTarget { target: tab.target },
                        Act::Switched { was },
                        Act::Redraw,
                    ),
                    None => nothing(),
                }
            },
            Command::NextTab => {
                let was = self.tabs.active_target();
                if self.tabs.select_next() {
                    both(Act::Switched { was }, Act::Redraw)
                } else {
                    nothing()
                }
            },
            Command::PreviousTab => {
                let was = self.tabs.active_target();
                if self.tabs.select_previous() {
                    both(Act::Switched { was }, Act::Redraw)
                } else {
                    nothing()
                }
            },
            Command::SelectTab(number) => {
                let was = self.tabs.active_target();
                if self.tabs.select(number) {
                    both(Act::Switched { was }, Act::Redraw)
                } else {
                    nothing()
                }
            },
            Command::CopyUrl => {
                let url = self.front_url();
                let written = self.copy_out(url.as_str(), Copied::Url);
                and_then_act(written, Act::Redraw)
            },
            Command::CopySelection => match self.tabs.active() {
                Some(tab) => just(Act::Selection { target: tab.target.clone() }),
                None => just(Act::Redraw),
            },
        }
    }

    /// Hand a key to the page in front.
    fn hand_over(&self, key: &KeyInput) -> (r: Vec<Act>)
        requires
            self.wf(),
        ensures
            deeds(r@) == self@.key_sent(*key).1,
    {
        match self.tabs.active() {
            Some(tab) => match send_key(key) {
                Some((method, params)) => just(
                    Act::Tell { target: tab.target.clone(), method, params },
                ),
                None => nothing(),
            },
            None => nothing(),
        }
    }

    /// A key that no line on the row takes.
    fn press(&mut self, key: &KeyInput) -> (r: Vec<Act>)
        requires
            old(self).wf(),
        ensures
            final(self).wf(),
            (final(self)@, deeds(r@)) == old(self)@.key_pressed(*key),
    {
        let command = command(key);
        let waits = match command {
            Some(c) => !survives_dialog(c),
            None => true,
        };
        let mut question = false;
        let mut path = false;
        let mut typed: Option<String> = None;
        match self.tabs.active() {
            Some(tab) => {
                match &tab.dialog {
                    Some(dialog) => {
                        question = true;
                        if dialog.typing() {
                            typed = Some(dialog.line.text.clone());
                        }
                    },
                    None => {},
                }
                match &tab.upload {
                    Some(upload) => {
                        path = true;
                        if !question {
                            typed = Some(upload.line.text.clone());
                        }
                    },
                    None => {},
                }
            },
            None => {},
        }
        if (question || path) && waits {
            return match command {
                Some(Command::CopySelection) => match typed {
                    Some(typed) => {
                        let written = self.copy_out(typed.as_str(), Copied::Text);
                        and_then_act(written, Act::Redraw)
                    },
                    None => nothing(),
                },
                Some(_) => nothing(),
                None => if question {
                    self.answer_dialog(key)
                } else {
                    self.answer_upload(key)
                },
            };
        }
        match command {
            Some(c) => self.run(c),
            None => self.hand_over(key),
        }
    }

    /// A key.
    fn key(&mut self, key: &KeyInput) -> (r: Vec<Act>)
        requires
            old(self).wf(),
        ensures
            final(self).wf(),
            (final(self)@, deeds(r@)) == old(self)@.keyed(*key),
    {
        let acts = match self.place() {
            Some(Place::Url) => self.edit_url(key),
            Some(Place::Find) => self.edit_find(key),
            _ => self.press(key),
        };
        if key.action != KeyAction::Release {
            first_do(Act::Stir, acts)
        } else {
            acts
        }
    }

    /// A paste into the question or the path of the page in front, or into the
    /// page.
    fn paste_to_page(&mut self, text: &str) -> (r: Vec<Act>)
        requires
            old(self).wf(),
            !(typed_at(old(self)@.owner()) == Some(Place::Url)),
            !(typed_at(old(self)@.owner()) == Some(Place::Find)),
        ensures
            final(self).wf(),
            (final(self)@, deeds(r@)) == old(self)@.pasted(text@),
    {
        let i = self.tabs.front;
        if i >= self.tabs.list.len() {
            return nothing();
        }
        let ghost before = self.tabs.list@;
        proof {
            assert(before[i as int].wf());
            assert(self@.tabs.leaves[i as int] == before[i as int]@);
        }
        let target = self.tabs.list[i].target.clone();
        let tab = &mut self.tabs.list[i];
        let mut dialog: Option<Dialog> = None;
        std::mem::swap(&mut dialog, &mut tab.dialog);
        match dialog {
            Some(mut asked) => {
                let taken = paste_into_dialog(&mut asked, text);
                tab.dialog = Some(asked);
                proof {
                    lemma_one_changed(before, self.tabs.list@, i as int);
                    assert(self@ =~= old(self)@.pasted(text@).0);
                }
                return if taken {
                    just(Act::Redraw)
                } else {
                    nothing()
                };
            },
            None => {},
        }
        let mut upload: Option<Upload> = None;
        std::mem::swap(&mut upload, &mut tab.upload);
        match upload {
            Some(mut path) => {
                let _ = paste_into_line(&mut path.line, text);
                tab.upload = Some(path);
                proof {
                    lemma_one_changed(before, self.tabs.list@, i as int);
                    assert(self@.tabs.leaves[i as int].upload->Some_0
                        =~= old(self)@.pasted(text@).0.tabs.leaves[i as int].upload->Some_0);
                    assert(self@ =~= old(self)@.pasted(text@).0);
                }
                just(Act::Redraw)
            },
            None => {
                proof {
                    lemma_one_changed(before, self.tabs.list@, i as int);
                    assert(self@ =~= old(self)@);
                }
                just(Act::Tell { target, method: "Input.insertText", params: insert_text(text) })
            },
        }
    }

    /// A paste, put wherever the typing is.
    ///
    /// Into the page it is one `Input.insertText` carrying the whole paste, and
    /// never keystrokes.
    pub fn paste(&mut self, text: &str) -> (r: Vec<Act>)
        requires
            old(self).wf(),
        ensures
            final(self).wf(),
            (final(self)@, deeds(r@)) == old(self)@.pasted(text@),
    {
        match self.place() {
            Some(Place::Url) => {
                let mut open: Option<UrlBar> = None;
                std::mem::swap(&mut open, &mut self.bar);
                match open {
                    Some(mut bar) => {
                        paste_into_bar(&mut bar, &self.history, text);
                        self.bar = Some(bar);
                    },
                    None => {},
                }
                just(Act::Redraw)
            },
            Some(Place::Find) => {
                let mut open: Option<Find> = None;
                std::mem::swap(&mut open, &mut self.find);
                match open {
                    Some(mut find) => {
                        let ghost hunt = find@;
                        if paste_into_line(&mut find.finder.line, text) {
                            proof {
                                assert(find@ =~= (Hunt {
                                    line: pasted_line(hunt.line, text@).0,
                                    ..hunt
                                }));
                            }
                            let needle = find.finder.line.text.clone();
                            find.want(Ask { needle, step: 0 });
                        } else {
                            proof {
                                assert(find@ =~= hunt);
                            }
                        }
                        self.find = Some(find);
                    },
                    None => {},
                }
                both(Act::Pump, Act::Redraw)
            },
            _ => self.paste_to_page(text),
        }
    }

    /// A mouse report.
    fn mouse(&mut self, report: &MouseInput, now: u64) -> (r: Vec<Act>)
        requires
            old(self).wf(),
        ensures
            final(self).wf(),
            (final(self)@, deeds(r@)) == old(self)@.moused(*report, now),
    {
        if asking(&self.tabs) {
            return nothing();
        }
        if report.kind == MouseKind::Wheel {
            return match (scroll(report, self.pixels, self.metrics), self.tabs.active()) {
                (Some((at, distance)), Some(tab)) => both(
                    Act::Stir,
                    Act::Scroll { target: tab.target.clone(), at, distance },
                ),
                _ => just(Act::Stir),
            };
        }
        let target = match self.tabs.active() {
            Some(tab) => tab.target.clone(),
            None => return nothing(),
        };
        match self.hand.send_mouse(report, self.pixels, self.metrics, now) {
            Some(params) => just(
                Act::Tell { target, method: "Input.dispatchMouseEvent", params },
            ),
            None => nothing(),
        }
    }

    /// Handle one thing the terminal said.
    pub fn handle_input(&mut self, input: &Input, now: u64) -> (r: Vec<Act>)
        requires
            old(self).wf(),
        ensures
            final(self).wf(),
            (final(self)@, deeds(r@)) == old(self)@.handled(input@, now),
    {
        match input {
            Input::Mode => nothing(),
            Input::PasteRefused { bytes } => {
                let size: u64 = (*bytes / 1024) as u64 + if *bytes % 1024 == 0 {
                    0
                } else {
                    1
                };
                proof {
                    assert(size == kib(*bytes as int));
                }
                let mut words = "paste refused: ".to_owned();
                words.append(decimal_string(size).as_str());
                words.append(" KiB is over ");
                words.append(decimal_string((PASTE_LIMIT / 1024) as u64).as_str());
                words.append(" KiB");
                self.note(words);
                just(Act::Redraw)
            },
            Input::Paste(text) => {
                let acts = self.paste(text.as_str());
                first_do(Act::Stir, acts)
            },
            Input::Key(key) => self.key(key),
            Input::Mouse(report) => self.mouse(report, now),
        }
    }
}

// ---- laws ----

/// A key let go is no answer, no letter and no command: it changes nothing, and
/// does no more than go to the page.
pub proof fn law_a_release_types_nothing(desk: Desk, key: KeyInput, i: int)
    requires
        key.action == KeyAction::Release,
        desk.tabs.valid(),
    ensures
        desk.keyed(key).0 == desk,
        0 <= i < desk.keyed(key).1.len() ==> desk.keyed(key).1[i] is Redraw || desk.keyed(key).1
            == desk.key_sent(key).1,
{
    match desk.tabs.active() {
        Some(leaf) => {
            assert(desk.with_front(leaf) =~= desk);
        },
        None => {},
    }
}

/// While the page in front is stopped behind a dialog, nothing the mouse does
/// reaches it.
pub proof fn law_a_stopped_page_is_not_clicked(desk: Desk, report: MouseInput, now: u64)
    requires
        is_asking(desk.tabs),
    ensures
        desk.moused(report, now) == (desk, Seq::<Deed>::empty()),
{
}

/// While the page in front waits on an answer no key sends it anywhere, loads
/// it again, walks its history, or types into it, unless the person types on
/// the row.
pub proof fn law_a_waiting_page_is_left_alone(desk: Desk, key: KeyInput, i: int)
    requires
        desk.bar is None,
        desk.find is None,
        is_asking(desk.tabs),
        0 <= i < desk.keyed(key).1.len(),
    ensures
        !(desk.keyed(key).1[i] is Navigate),
        !(desk.keyed(key).1[i] is Reload),
        !(desk.keyed(key).1[i] is Walk),
        desk.keyed(key).1[i] matches Deed::Tell { method, .. } ==> method
            == "Page.handleJavaScriptDialog"@,
{
    let command = commanded(key);
    let acts = desk.key_pressed(key).1;
    if command is Some && survives(command->Some_0) {
        let text = desk.front_url();
        assert(desk.copied_out(text, Copied::Url).1.len() <= 1);
    }
}

/// A paste never answers a question that is answered by a key, never quits and
/// never sends the page anywhere.
pub proof fn law_a_paste_decides_nothing(desk: Desk, text: Seq<char>, i: int)
    requires
        0 <= i < desk.pasted(text).1.len(),
    ensures
        !(desk.pasted(text).1[i] is Quit),
        !(desk.pasted(text).1[i] is Navigate),
        desk.pasted(text).1[i] matches Deed::Tell { method, .. } ==> method
            == "Input.insertText"@,
{
}

/// What a copy puts on the row says how much was copied and nothing of the
/// text: two texts of one length get one sentence.
pub proof fn law_a_copy_says_how_much_and_never_what(a: Seq<char>, b: Seq<char>, what: Copied)
    requires
        a.len() == b.len(),
    ensures
        copied_words(a, what) == copied_words(b, what),
{
}

/// Closing the only tab is quitting; closing one of several closes that one and
/// quits nothing.
pub proof fn law_closing_the_last_tab_quits(desk: Desk)
    requires
        desk.tabs.valid(),
        desk.tabs.leaves.len() > 0,
    ensures
        desk.tabs.leaves.len() == 1 ==> desk.commanded(Command::CloseTab) == (
            desk,
            seq![Deed::Quit],
        ),
        desk.tabs.leaves.len() > 1 ==> desk.commanded(Command::CloseTab).0.tabs.leaves.len()
            == desk.tabs.leaves.len() - 1 && desk.commanded(Command::CloseTab).1[0] == (
        Deed::CloseTarget { target: desk.tabs.leaves[desk.tabs.front].target }),
{
}

/// The needle a prompt is closed with is the needle the next one offers, with
/// the search for it.
pub proof fn law_the_next_prompt_offers_the_last_needle(desk: Desk, hunt: Hunt, leaf: Leaf)
    requires
        desk.find == Some(hunt),
        desk.tabs.active() == Some(leaf),
    ensures
        desk.find_closed().0.commanded(Command::Find).0.find matches Some(next) && (next.line.text
            == hunt.line.text && next.wanted == (if hunt.line.text.len() == 0 {
            None
        } else {
            Some(Wish { needle: hunt.line.text, step: 0 })
        })),
{
}

/// Each command does what its name says, to the page in front and to no other.
pub proof fn law_a_command_does_what_it_is_named_for(desk: Desk, leaf: Leaf, number: usize)
    requires
        desk.tabs.valid(),
        desk.tabs.active() == Some(leaf),
    ensures
        desk.commanded(Command::Quit) == (desk, seq![Deed::Quit]),
        desk.commanded(Command::NewTab) == (desk, seq![Deed::OpenTab]),
        desk.commanded(Command::Back) == (
            desk,
            seq![Deed::Walk { target: leaf.target, delta: (-1) as i64 }],
        ),
        desk.commanded(Command::Forward) == (
            desk,
            seq![Deed::Walk { target: leaf.target, delta: 1 }],
        ),
        desk.commanded(Command::CopySelection) == (
            desk,
            seq![Deed::Selection { target: leaf.target }],
        ),
        desk.commanded(Command::EditUrl).0.bar matches Some(bar) && bar.line.text == leaf.url
            && bar.line.whole && bar.line.cursor == leaf.url.len() && bar.walk is None,
        desk.commanded(Command::EditUrl).0.tabs == desk.tabs,
        desk.commanded(Command::Find).0.find matches Some(hunt) && hunt.target == leaf.target
            && hunt.line.text == desk.last_needle && hunt.pending is None,
        desk.commanded(Command::Find).1.contains(Deed::World { target: leaf.target }),
        !(leaf.problem matches Some(Trouble::Unreachable { .. })) ==> desk.commanded(
            Command::Reload,
        ) == (desk, seq![Deed::Reload { target: leaf.target }]),
        leaf.problem matches Some(Trouble::Unreachable { url, .. }) ==> desk.commanded(
            Command::Reload,
        ).1.contains(Deed::Navigate { target: leaf.target, url }) && desk.commanded(
            Command::Reload,
        ).0.tabs.active()->Some_0.loading,
        0 < leaf.url.len() && byte_len(leaf.url) <= 65536 ==> desk.commanded(
            Command::CopyUrl,
        ).1.contains(Deed::Write(copy_bytes(leaf.url))),
        desk.tabs.leaves.len() >= 2 ==> desk.commanded(Command::CloseTab).1.contains(
            Deed::CloseTarget { target: leaf.target },
        ) && desk.commanded(Command::CloseTab).0.tabs == desk.tabs.closed(desk.tabs.front),
        desk.commanded(Command::NextTab).0.tabs == desk.tabs.next(),
        desk.commanded(Command::PreviousTab).0.tabs == desk.tabs.previous(),
        desk.commanded(Command::SelectTab(number)).0.tabs == desk.tabs.chosen(number as int),
        desk.tabs.leaves.len() >= 2 ==> desk.commanded(Command::NextTab).1.contains(
            Deed::Switched { was: Some(leaf.target) },
        ),
{
    let find = desk.commanded(Command::Find).1;
    assert(find[0] == Deed::World { target: leaf.target });
    if leaf.problem matches Some(Trouble::Unreachable { .. }) {
        assert(desk.commanded(Command::Reload).1[1] is Navigate);
    }
    if 0 < leaf.url.len() && byte_len(leaf.url) <= 65536 {
        assert(desk.commanded(Command::CopyUrl).1[0] == Deed::Write(copy_bytes(leaf.url)));
    }
    if desk.tabs.leaves.len() >= 2 {
        assert(desk.commanded(Command::CloseTab).1[0] is CloseTarget);
        assert(desk.commanded(Command::NextTab).1[0] is Switched);
    }
}

/// Enter in the address bar goes where the line says: the bar closes, the page in
/// front is sent there, and it says that it is loading.
pub proof fn law_enter_goes_where_the_line_says(desk: Desk, bar: Bar, leaf: Leaf, key: KeyInput)
    requires
        desk.tabs.valid(),
        desk.bar == Some(bar),
        desk.tabs.active() == Some(leaf),
        key.key == Key::Enter,
        key.action != KeyAction::Release,
    ensures
        ({
            let url = went(bar.line.text, desk.search_url);
            let (after, acts) = desk.url_edited(key);
            &&& after.bar is None
            &&& acts.contains(Deed::Navigate { target: leaf.target, url })
            &&& after.tabs.active() matches Some(now) && now.url == url && now.loading && now.note
                == Some("loading "@ + url) && now.target == leaf.target
            &&& after.tabs.leaves.len() == desk.tabs.leaves.len()
        }),
{
    assert(desk.url_edited(key).1[0] is Navigate);
}

/// Escape leaves the address bar and changes nothing else; any other key edits
/// the line as the bar has it.
pub proof fn law_escape_leaves_the_address_bar(desk: Desk, bar: Bar, key: KeyInput)
    requires
        desk.bar == Some(bar),
        key.action != KeyAction::Release,
    ensures
        key.key == Key::Escape ==> desk.url_edited(key) == (
            Desk { bar: None, ..desk },
            seq![Deed::Redraw],
        ),
        bar.stepped(desk.visited, key).1 == Edit::Inserted ==> desk.url_edited(key) == (
            Desk { bar: Some(bar.stepped(desk.visited, key).0), ..desk },
            seq![Deed::Redraw],
        ),
{
}

/// A key that is nobody else's is the page's, and it is told to the page in front.
pub proof fn law_a_key_goes_to_the_page_in_front(desk: Desk, leaf: Leaf, key: KeyInput)
    requires
        desk.bar is None,
        desk.find is None,
        desk.tabs.active() == Some(leaf),
        leaf.dialog is None,
        leaf.upload is None,
        key.action != KeyAction::Release,
    ensures
        commanded(key) is None ==> (sent_key(key) matches Some((method, params)) ==> desk.keyed(key)
            == (desk, seq![Deed::Stir, Deed::Tell { target: leaf.target, method, params }])),
        commanded(key) matches Some(command) ==> desk.keyed(key) == (
            desk.commanded(command).0,
            seq![Deed::Stir] + desk.commanded(command).1,
        ),
{
    if commanded(key) is None && sent_key(key) is Some {
        let (method, params) = sent_key(key)->Some_0;
        assert(desk.keyed(key).1 =~= seq![
            Deed::Stir,
            Deed::Tell { target: leaf.target, method, params },
        ]);
    }
}

/// An answer goes to the page that asked, once, and the question is gone; a page
/// that is not left after all is asked where it is.
pub proof fn law_an_answer_goes_to_the_page_that_asked(
    desk: Desk,
    leaf: Leaf,
    q: Question,
    key: KeyInput,
)
    requires
        desk.tabs.valid(),
        desk.tabs.active() == Some(leaf),
        leaf.dialog == Some(q),
        q.stepped(key).1 == Answer::Accept || q.stepped(key).1 == Answer::Dismiss,
    ensures
        ({
            let (asked, answer) = q.stepped(key);
            let (after, acts) = desk.dialog_answered(key);
            &&& acts[0] == Deed::Tell {
                target: leaf.target,
                method: "Page.handleJavaScriptDialog"@,
                params: asked.replied(answer),
            }
            &&& after.tabs.active() matches Some(now) && now.dialog is None && now.url == leaf.url
                && now.target == leaf.target
            &&& acts.contains(Deed::CurrentUrl { target: leaf.target }) <==> q.kind
                == Kind::BeforeUnload && answer == Answer::Dismiss
            &&& acts.last() == Deed::Redraw
        }),
{
    let (after, acts) = desk.dialog_answered(key);
    if q.kind == Kind::BeforeUnload && q.stepped(key).1 == Answer::Dismiss {
        assert(acts[1] == Deed::CurrentUrl { target: leaf.target });
    } else {
        assert(acts[0] is Tell && acts[1] is Redraw && acts.len() == 2);
    }
}

/// A path goes to the input that asked, and the next one is looked for beside it;
/// a chooser that is given up is let go.
pub proof fn law_a_path_goes_to_the_page_that_asked(
    desk: Desk,
    leaf: Leaf,
    offer: Offer,
    key: KeyInput,
)
    requires
        desk.tabs.valid(),
        desk.tabs.active() == Some(leaf),
        leaf.upload == Some(offer),
    ensures
        ({
            let (typed, outcome) = offer.stepped(key);
            let (after, acts) = desk.upload_answered(key);
            &&& outcome == Outcome::Send ==> {
                &&& acts[0] == Deed::Tell {
                    target: leaf.target,
                    method: "DOM.setFileInputFiles"@,
                    params: typed.replied(),
                }
                &&& after.upload_dir == Some(directory_of(typed.path()))
                &&& after.tabs.active()->Some_0.upload is None
                &&& after.tabs.active()->Some_0.note == Some("sent "@ + typed.path())
            }
            &&& outcome == Outcome::Cancel ==> {
                &&& acts[0] == Deed::CancelChooser { target: leaf.target, node: offer.node }
                &&& after.tabs.active()->Some_0.upload is None
                &&& after.upload_dir == desk.upload_dir
            }
            &&& outcome == Outcome::Waiting ==> after.tabs.active()->Some_0.upload == Some(typed)
        }),
{
}

/// What is pasted goes to the line that is being typed, and to the page when none
/// is, as text.
pub proof fn law_a_paste_goes_where_typing_goes(desk: Desk, leaf: Leaf, text: Seq<char>, bar: Bar)
    requires
        desk.tabs.active() == Some(leaf),
    ensures
        desk.bar is None && desk.find is None && leaf.dialog is None && leaf.upload is None
            ==> desk.pasted(text) == (
            desk,
            seq![
                Deed::Tell {
                    target: leaf.target,
                    method: "Input.insertText"@,
                    params: inserted(text),
                },
            ],
        ),
        desk.bar == Some(bar) ==> desk.pasted(text) == (
            Desk { bar: Some(bar.pasted(desk.visited, text)), ..desk },
            seq![Deed::Redraw],
        ),
        desk.bar is None ==> (desk.find matches Some(hunt) ==> desk.pasted(text).0.find matches Some(
            now,
        ) && now.line == pasted_line(hunt.line, text).0),
{
}

/// The mouse is the page's: what it is told of it goes to the page in front, and
/// a wheel turned over it scrolls it.
pub proof fn law_the_mouse_is_the_pages(desk: Desk, leaf: Leaf, report: MouseInput, now: u64)
    requires
        desk.tabs.active() == Some(leaf),
        leaf.dialog is None,
    ensures
        report.kind != MouseKind::Wheel ==> ({
            let (hand, event) = desk.hand.reported(report, desk.pixels, desk.metrics.cell, now);
            &&& desk.moused(report, now).0 == Desk { hand, ..desk }
            &&& desk.moused(report, now).1 == match event {
                Some(params) => seq![
                    Deed::Tell {
                        target: leaf.target,
                        method: "Input.dispatchMouseEvent"@,
                        params,
                    },
                ],
                None => Seq::empty(),
            }
        }),
        report.kind == MouseKind::Wheel ==> (scrolled(report, desk.pixels, desk.metrics.cell)
            matches Some((at, distance)) ==> desk.moused(report, now) == (
            desk,
            seq![Deed::Stir, Deed::Scroll { target: leaf.target, at, distance }],
        )),
{
}

/// What is copied goes to the terminal as it is, and the row says how much; what
/// is too large, and nothing, are refused in words.
pub proof fn law_a_copy_is_of_all_of_it_or_refused(desk: Desk, leaf: Leaf, text: Seq<char>, what: Copied)
    requires
        desk.tabs.valid(),
        desk.tabs.active() == Some(leaf),
    ensures
        ({
            let (after, acts) = desk.copied_out(text, what);
            let said = after.tabs.active()->Some_0.note;
            &&& acts == if text.len() > 0 && byte_len(text) <= 65536 {
                seq![Deed::Write(copy_bytes(text))]
            } else {
                Seq::empty()
            }
            &&& text.len() == 0 ==> said == Some("nothing to copy"@)
            &&& text.len() > 1 && byte_len(text) <= 65536 && what == Copied::Text ==> said == Some(
                "copied "@ + decimal(text.len()) + " characters"@,
            )
            &&& text.len() > 0 && byte_len(text) <= 65536 && what == Copied::Url ==> said == Some(
                "copied url"@,
            )
        }),
{
}

/// A paste that is refused says how large it was, in whole kibibytes, no fewer
/// than it had.
pub proof fn law_a_refused_paste_says_how_large_it_was(bytes: usize)
    ensures
        paste_refused(bytes) == "paste refused: "@ + decimal(kib(bytes as int) as nat)
            + " KiB is over "@ + decimal(64) + " KiB"@,
        kib(bytes as int) * 1024 >= bytes > (kib(bytes as int) - 1) * 1024,
        copy_refused() == "copy refused: over "@ + decimal(64) + " KiB"@,
{
}

/// Leaving the search clears what it marked, on the page that it was of, and
/// remembers what was looked for.
pub proof fn law_a_search_that_is_left_is_cleared(desk: Desk, hunt: Hunt, context: i64)
    requires
        desk.find == Some(hunt),
        hunt.context == Some(context),
        desk.tabs.place(hunt.target) < desk.tabs.leaves.len(),
    ensures
        desk.find_closed().0 == (Desk { find: None, last_needle: hunt.line.text, ..desk }),
        desk.find_closed().1 == seq![
            Deed::Tell {
                target: hunt.target,
                method: "Runtime.callFunctionOn"@,
                params: call_of(context, Wish { needle: Seq::empty(), step: 0 }),
            },
        ],
{
}

/// A key that asks the search for something has it asked, and one that closes it
/// closes it.
pub proof fn law_a_key_drives_the_search(desk: Desk, hunt: Hunt, key: KeyInput)
    requires
        desk.find == Some(hunt),
        key.action != KeyAction::Release,
        commanded(key) is None,
    ensures
        ({
            let after = Hunt { line: strode(hunt.line, key).0, ..hunt };
            strode(hunt.line, key).1 matches Stride::Typing(Some(ask)) ==> desk.find_edited(
                key,
            ).0.find == Some(after.wanting(ask)) && desk.find_edited(key).1.contains(Deed::Pump)
        }),
        strode(hunt.line, key).1 is Close ==> desk.find_edited(key).0.find is None,
        strode(hunt.line, key).1 is Quit ==> desk.find_edited(key).1 == seq![Deed::Quit],
{
    if strode(hunt.line, key).1 matches Stride::Typing(Some(_)) {
        assert(desk.find_edited(key).1[0] == Deed::Pump);
    }
}

/// What the terminal says is a key, a paste or the mouse, and each goes its way.
pub proof fn law_what_the_terminal_says_goes_its_way(
    desk: Desk,
    key: KeyInput,
    report: MouseInput,
    text: Seq<char>,
    now: u64,
)
    ensures
        desk.handled(Said::Key(key), now) == desk.keyed(key),
        desk.handled(Said::Mouse(report), now) == desk.moused(report, now),
        desk.handled(Said::Paste(text), now).0 == desk.pasted(text).0,
        desk.handled(Said::Paste(text), now).1.drop_first() == desk.pasted(text).1,
        desk.handled(Said::Mode, now) == (desk, Seq::<Deed>::empty()),
        desk.bar is Some ==> desk.keyed(key).0 == desk.url_edited(key).0,
        desk.bar is None && desk.find is Some ==> desk.keyed(key).0 == desk.find_edited(key).0,
{
    assert(desk.handled(Said::Paste(text), now).1.drop_first() =~= desk.pasted(text).1);
}

/// While a page waits for an answer a command that leaves it alone is still obeyed,
/// and any other is not.
pub proof fn law_a_question_stops_what_would_touch_its_page(
    desk: Desk,
    leaf: Leaf,
    q: Question,
    key: KeyInput,
    command: Command,
)
    requires
        desk.tabs.active() == Some(leaf),
        leaf.dialog == Some(q),
        commanded(key) == Some(command),
    ensures
        survives(command) ==> desk.key_pressed(key) == desk.commanded(command),
        !survives(command) && command != Command::CopySelection ==> desk.key_pressed(key) == (
            desk,
            Seq::<Deed>::empty(),
        ),
        command == Command::CopySelection && q.kind == Kind::Prompt ==> desk.key_pressed(key).0
            == desk.copied_out(q.line.text, Copied::Text).0,
{
}

/// While something is typed on the row the keys that copy copy what is typed, or
/// the address of the page.
pub proof fn law_what_is_typed_can_be_copied(desk: Desk, bar: Bar, leaf: Leaf, key: KeyInput)
    requires
        desk.bar == Some(bar),
        desk.tabs.active() == Some(leaf),
        key.action != KeyAction::Release,
    ensures
        commanded(key) == Some(Command::CopySelection) ==> desk.url_edited(key) == desk.copied_out(
            bar.line.text,
            Copied::Text,
        ),
        commanded(key) == Some(Command::CopyUrl) ==> desk.url_edited(key) == desk.copied_out(
            leaf.url,
            Copied::Url,
        ),
{
}

}
