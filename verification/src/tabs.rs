//! The tabs: what each page is, and which of them is in front.
use vstd::prelude::*;

use crate::cdp::{Event, News};
use crate::dialog::{question, Dialog, Question};
use crate::json::{
    field, lemma_each_is_found, lemma_none_is_found, named_once, text_of, Value,
};
use crate::load::{Arrival, Landing, Loaded, Report};
use crate::strings::{
    chars_of, decimal, decimal_string, is_blank, same, starts, starts_with_word,
};
use crate::text::{all_plain, law_sanitized_is_plain, sanitize, sanitized};
use crate::upload::{maybe, offer_of, Offer, Upload};

verus! {

/// What is wrong with a page.
#[derive(Debug, PartialEq, Eq)]
pub enum Problem {
    /// It did not come.
    Unreachable { url: String, code: String },
    /// It came with a status that says it is not the page that was asked for.
    Status(u32),
}

/// What a [`Problem`] is.
pub enum Trouble {
    Unreachable { url: Seq<char>, code: Seq<char> },
    Status(u32),
}

impl View for Problem {
    type V = Trouble;

    open spec fn view(&self) -> Trouble {
        match *self {
            Problem::Unreachable { url, code } => Trouble::Unreachable { url: url@, code: code@ },
            Problem::Status(n) => Trouble::Status(n),
        }
    }
}

/// One tab.
#[derive(Debug, PartialEq, Eq)]
pub struct Tab {
    /// The engine's name for the page.
    pub target: String,
    pub url: String,
    pub title: String,
    /// A sentence in place of the title, until the next landing.
    pub note: Option<String>,
    pub loading: bool,
    /// The question the page is stopped on.
    pub dialog: Option<Dialog>,
    pub problem: Option<Problem>,
    /// The path being typed for the page's file input.
    pub upload: Option<Upload>,
}

/// What a [`Tab`] is.
#[verifier::ext_equal]
pub struct Leaf {
    pub target: Seq<char>,
    pub url: Seq<char>,
    pub title: Seq<char>,
    pub note: Option<Seq<char>>,
    pub loading: bool,
    pub dialog: Option<Question>,
    pub problem: Option<Trouble>,
    pub upload: Option<Offer>,
}

/// What an optional dialog is.
pub open spec fn asked(d: Option<Dialog>) -> Option<Question> {
    match d {
        Some(d) => Some(d@),
        None => None,
    }
}

/// What an optional problem is.
pub open spec fn trouble(p: Option<Problem>) -> Option<Trouble> {
    match p {
        Some(p) => Some(p@),
        None => None,
    }
}

/// What an optional path being typed is.
pub open spec fn offered(u: Option<Upload>) -> Option<Offer> {
    match u {
        Some(u) => Some(u@),
        None => None,
    }
}

impl View for Tab {
    type V = Leaf;

    open spec fn view(&self) -> Leaf {
        Leaf {
            target: self.target@,
            url: self.url@,
            title: self.title@,
            note: maybe(self.note),
            loading: self.loading,
            dialog: asked(self.dialog),
            problem: trouble(self.problem),
            upload: offered(self.upload),
        }
    }
}

/// What a landing that failed without a reason is put down to.
pub const NO_REASON: &'static str = "net::ERR_FAILED";

impl Leaf {
    /// A page that has just been opened at a url.
    pub open spec fn fresh(target: Seq<char>, url: Seq<char>) -> Leaf {
        Leaf {
            target,
            url,
            title: Seq::empty(),
            note: None,
            loading: false,
            dialog: None,
            problem: None,
            upload: None,
        }
    }

    /// The page by its title and its url, as far as they are known.
    pub open spec fn named(self) -> Seq<char> {
        if self.title.len() > 0 {
            if self.url.len() > 0 {
                self.title + "  —  "@ + self.url
            } else {
                self.title
            }
        } else if self.url.len() > 0 {
            self.url
        } else {
            "blinkterm"@
        }
    }

    /// What the row says of it: the note, else what is wrong, else its name.
    pub open spec fn said(self) -> Seq<char> {
        match self.note {
            Some(note) => note,
            None => match self.problem {
                Some(Trouble::Unreachable { url, code }) => "cannot reach "@ + url + ": "@ + code,
                Some(Trouble::Status(n)) => decimal(n as nat) + "  "@ + self.named(),
                None => self.named(),
            },
        }
    }

    /// What the strip says of it.
    pub open spec fn labelled(self) -> Seq<char> {
        match self.problem {
            Some(Trouble::Unreachable { url, .. }) => "cannot reach "@ + url,
            _ => if self.title.len() > 0 {
                self.title
            } else if self.url.len() > 0 {
                self.url
            } else {
                "blinkterm"@
            },
        }
    }

    /// The page waits on the person.
    pub open spec fn waits(self) -> bool {
        self.dialog is Some || self.upload is Some
    }

    /// The page has gone somewhere. A page that did not come keeps the reason
    /// it was given, when that was for the same url.
    pub open spec fn landed(self, at: Arrival) -> Leaf {
        Leaf {
            url: at.url,
            title: Seq::empty(),
            note: None,
            loading: at.came && self.loading,
            upload: None,
            problem: if at.came {
                None
            } else {
                match self.problem {
                    Some(Trouble::Unreachable { url, code }) => if url == at.url {
                        Some(Trouble::Unreachable { url, code })
                    } else {
                        Some(Trouble::Unreachable { url: at.url, code: NO_REASON@ })
                    },
                    _ => Some(Trouble::Unreachable { url: at.url, code: NO_REASON@ }),
                }
            },
            ..self
        }
    }

    /// The page has said what it calls itself, and what it came with. One that
    /// did not come is still that.
    pub open spec fn after_load(self, report: Report) -> Leaf {
        Leaf {
            title: report.title,
            problem: match self.problem {
                Some(Trouble::Unreachable { url, code }) => Some(
                    Trouble::Unreachable { url, code },
                ),
                _ => match report.status {
                    Some(n) => if n >= 400 {
                        Some(Trouble::Status(n))
                    } else {
                        None
                    },
                    None => None,
                },
            },
            ..self
        }
    }

    /// A navigation did not come.
    pub open spec fn turned_away(self, url: Seq<char>, code: Seq<char>) -> Leaf {
        Leaf {
            url,
            note: None,
            loading: false,
            problem: Some(Trouble::Unreachable { url, code }),
            ..self
        }
    }

    /// What an event says of the page's dialog: the page after it, and whether
    /// anything changed.
    pub open spec fn dialog_news(self, event: News) -> (Leaf, bool) {
        if event.method == "Page.javascriptDialogOpening"@ {
            match question(event.params) {
                Some(q) => (Leaf { dialog: Some(q), ..self }, true),
                None => (self, false),
            }
        } else if event.method == "Page.javascriptDialogClosed"@ {
            (Leaf { dialog: None, ..self }, self.dialog is Some)
        } else {
            (self, false)
        }
    }

    /// What an event says of the page's file input: the page after it, and
    /// whether anything changed.
    pub open spec fn chooser_news(
        self,
        event: News,
        base: Seq<char>,
        home: Option<Seq<char>>,
    ) -> (Leaf, bool) {
        if event.method == "Page.fileChooserOpened"@ {
            match offer_of(event.params, base, home) {
                Some(offer) => (Leaf { upload: Some(offer), ..self }, true),
                None => (self, false),
            }
        } else {
            (self, false)
        }
    }
}

impl Tab {
    /// What is being typed can be typed into.
    pub open spec fn wf(self) -> bool {
        &&& (self.dialog matches Some(d) ==> d.wf())
        &&& (self.upload matches Some(u) ==> u.wf())
    }

    /// A page that has just been opened at a url.
    pub fn new(target: &str, url: &str) -> (r: Tab)
        ensures
            r.wf(),
            r@ == Leaf::fresh(target@, url@),
    {
        let r = Tab {
            target: target.to_owned(),
            url: url.to_owned(),
            title: String::new(),
            note: None,
            loading: false,
            dialog: None,
            problem: None,
            upload: None,
        };
        proof {
            assert(r@ =~= Leaf::fresh(target@, url@));
        }
        r
    }

    /// The page by its title and its url.
    fn name(&self) -> (r: String)
        ensures
            r@ == self@.named(),
    {
        if !is_blank(self.title.as_str()) {
            if !is_blank(self.url.as_str()) {
                let mut out = self.title.clone();
                out.append("  —  ");
                out.append(self.url.as_str());
                out
            } else {
                self.title.clone()
            }
        } else if !is_blank(self.url.as_str()) {
            self.url.clone()
        } else {
            "blinkterm".to_owned()
        }
    }

    /// What the row says of the page, as plain text.
    pub fn line(&self) -> (r: String)
        ensures
            r@ == sanitized(self@.said()),
    {
        let said = match &self.note {
            Some(note) => note.clone(),
            None => match &self.problem {
                Some(Problem::Unreachable { url, code }) => {
                    let mut out = "cannot reach ".to_owned().concat(url.as_str());
                    out.append(": ");
                    out.append(code.as_str());
                    out
                },
                Some(Problem::Status(n)) => {
                    let mut out = decimal_string(*n as u64);
                    out.append("  ");
                    out.append(self.name().as_str());
                    out
                },
                None => self.name(),
            },
        };
        sanitize(said.as_str())
    }

    /// What the strip says of the page, as plain text.
    pub fn label(&self) -> (r: String)
        ensures
            r@ == sanitized(self@.labelled()),
    {
        let label = match &self.problem {
            Some(Problem::Unreachable { url, .. }) => {
                "cannot reach ".to_owned().concat(url.as_str())
            },
            _ => if !is_blank(self.title.as_str()) {
                self.title.clone()
            } else if !is_blank(self.url.as_str()) {
                self.url.clone()
            } else {
                "blinkterm".to_owned()
            },
        };
        sanitize(label.as_str())
    }

    /// Whether the page waits on the person: a dialog, or a file input's path.
    pub fn asks(&self) -> (r: bool)
        ensures
            r == self@.waits(),
    {
        self.dialog.is_some() || self.upload.is_some()
    }

    /// The page has gone somewhere.
    pub fn landed(&mut self, at: Landing)
        requires
            old(self).wf(),
        ensures
            final(self).wf(),
            final(self)@ == old(self)@.landed(at@),
    {
        let keeps = match &self.problem {
            Some(Problem::Unreachable { url, .. }) => same(url.as_str(), at.url.as_str()),
            _ => false,
        };
        if at.came {
            self.problem = None;
        } else if !keeps {
            self.problem = Some(
                Problem::Unreachable { url: at.url.clone(), code: NO_REASON.to_owned() },
            );
        }
        self.loading = at.came && self.loading;
        self.url = at.url;
        self.title = String::new();
        self.note = None;
        self.upload = None;
        proof {
            assert(self@ =~= old(self)@.landed(at@));
        }
    }

    /// The page has said what it calls itself, and what it came with.
    pub fn loaded(&mut self, report: Loaded)
        requires
            old(self).wf(),
        ensures
            final(self).wf(),
            final(self)@ == old(self)@.after_load(report@),
    {
        self.title = report.title;
        let turned_away = match &self.problem {
            Some(Problem::Unreachable { .. }) => true,
            _ => false,
        };
        if !turned_away {
            self.problem = match report.status {
                Some(n) => if n >= 400 {
                    Some(Problem::Status(n))
                } else {
                    None
                },
                None => None,
            };
        }
        proof {
            assert(self@ =~= old(self)@.after_load(report@));
        }
    }

    /// A navigation did not come: the reason, against the url that was asked
    /// for.
    pub fn failed_to_reach(&mut self, url: &str, code: &str)
        requires
            old(self).wf(),
        ensures
            final(self).wf(),
            final(self)@ == old(self)@.turned_away(url@, code@),
    {
        self.url = url.to_owned();
        self.note = None;
        self.loading = false;
        self.problem = Some(Problem::Unreachable { url: url.to_owned(), code: code.to_owned() });
        proof {
            assert(self@ =~= old(self)@.turned_away(url@, code@));
        }
    }

    /// What an event says of the page's dialog; whether anything changed.
    pub fn dialog_event(&mut self, event: &Event) -> (r: bool)
        requires
            old(self).wf(),
        ensures
            final(self).wf(),
            (final(self)@, r) == old(self)@.dialog_news(event@),
    {
        if same(event.method.as_str(), "Page.javascriptDialogOpening") {
            match Dialog::opening(&event.params) {
                Some(d) => {
                    self.dialog = Some(d);
                    proof {
                        assert(self@ =~= old(self)@.dialog_news(event@).0);
                    }
                    true
                },
                None => false,
            }
        } else if same(event.method.as_str(), "Page.javascriptDialogClosed") {
            let had = self.dialog.is_some();
            self.dialog = None;
            proof {
                assert(self@ =~= old(self)@.dialog_news(event@).0);
            }
            had
        } else {
            false
        }
    }

    /// What an event says of the page's file input; whether anything changed.
    pub fn chooser_event(&mut self, event: &Event, base: &str, home: Option<&str>) -> (r: bool)
        requires
            old(self).wf(),
        ensures
            final(self).wf(),
            (final(self)@, r) == old(self)@.chooser_news(
                event@,
                base@,
                match home {
                    Some(h) => Some(h@),
                    None => None,
                },
            ),
    {
        if same(event.method.as_str(), "Page.fileChooserOpened") {
            match Upload::opened(&event.params, base, home) {
                Some(u) => {
                    self.upload = Some(u);
                    proof {
                        assert(self@.upload == Some(u@));
                        assert(self@ =~= (Leaf { upload: Some(u@), ..old(self)@ }));
                    }
                    true
                },
                None => false,
            }
        } else {
            false
        }
    }
}

// ---- the list ----

/// The tabs, and which of them is in front.
#[derive(Debug, PartialEq, Eq)]
pub struct Tabs {
    pub list: Vec<Tab>,
    pub front: usize,
}

/// What [`Tabs`] are.
#[verifier::ext_equal]
pub struct Strip {
    pub leaves: Seq<Leaf>,
    pub front: int,
}

/// What some tabs are.
pub open spec fn leaves(list: Seq<Tab>) -> Seq<Leaf> {
    list.map_values(|t: Tab| t@)
}

impl View for Tabs {
    type V = Strip;

    open spec fn view(&self) -> Strip {
        Strip { leaves: leaves(self.list@), front: self.front as int }
    }
}

/// Where the page of a target is, from `i` on; the number of tabs when there is
/// none.
pub open spec fn place_from(tabs: Seq<Leaf>, target: Seq<char>, i: int) -> int
    decreases tabs.len() - i,
{
    if i >= tabs.len() || tabs[i].target == target {
        i
    } else {
        place_from(tabs, target, i + 1)
    }
}

/// What an event on the browser's own connection says of the tabs.
#[derive(Debug, PartialEq, Eq)]
pub enum TargetNews {
    /// Nothing.
    Ignored,
    /// A page that is none of them yet, to be attached to.
    Connect { target: String, url: String },
    /// One of them has another url.
    Renamed,
    /// One of them has gone, with a sentence when there is one to say.
    Gone { target: String, why: Option<String> },
}

/// What a [`TargetNews`] is.
pub enum Word {
    Ignored,
    Connect { target: Seq<char>, url: Seq<char> },
    Renamed,
    Gone { target: Seq<char>, why: Option<Seq<char>> },
}

impl View for TargetNews {
    type V = Word;

    open spec fn view(&self) -> Word {
        match *self {
            TargetNews::Ignored => Word::Ignored,
            TargetNews::Connect { target, url } => Word::Connect { target: target@, url: url@ },
            TargetNews::Renamed => Word::Renamed,
            TargetNews::Gone { target, why } => Word::Gone { target: target@, why: maybe(why) },
        }
    }
}

/// What is said when a page dies.
pub const CRASHED: &'static str = "the page crashed";

impl Strip {
    /// One of the tabs is in front, unless there is none.
    pub open spec fn valid(self) -> bool {
        0 <= self.front < self.leaves.len() || (self.front == 0 && self.leaves.len() == 0)
    }

    /// The page in front.
    pub open spec fn active(self) -> Option<Leaf> {
        if 0 <= self.front < self.leaves.len() {
            Some(self.leaves[self.front])
        } else {
            None
        }
    }

    /// The target of the page in front.
    pub open spec fn active_target(self) -> Option<Seq<char>> {
        match self.active() {
            Some(leaf) => Some(leaf.target),
            None => None,
        }
    }

    /// The tabs with another page in front, in the same place.
    pub open spec fn with_front(self, leaf: Leaf) -> Strip {
        Strip { leaves: self.leaves.update(self.front, leaf), ..self }
    }

    /// The tabs with a sentence on the row of the one in front.
    pub open spec fn noted(self, sentence: Seq<char>) -> Strip {
        match self.active() {
            Some(leaf) => self.with_front(Leaf { note: Some(sentence), ..leaf }),
            None => self,
        }
    }

    /// Where the page of a target is; the number of tabs when there is none.
    pub open spec fn place(self, target: Seq<char>) -> int {
        place_from(self.leaves, target, 0)
    }

    /// The tabs with one more, in front.
    pub open spec fn opened(self, leaf: Leaf) -> Strip {
        Strip { leaves: self.leaves.push(leaf), front: self.leaves.len() as int }
    }

    /// The tabs without one. When it was in front the one after it is, or the
    /// last.
    pub open spec fn closed(self, i: int) -> Strip {
        if 0 <= i < self.leaves.len() {
            let left = self.leaves.remove(i);
            Strip {
                leaves: left,
                front: if i < self.front || (i == self.front && i == left.len() && i > 0) {
                    self.front - 1
                } else {
                    self.front
                },
            }
        } else {
            self
        }
    }

    /// The tabs with the next one in front, round to the first.
    pub open spec fn next(self) -> Strip {
        if self.front + 1 < self.leaves.len() {
            Strip { front: self.front + 1, ..self }
        } else {
            Strip { front: 0, ..self }
        }
    }

    /// The tabs with the one before in front, round to the last.
    pub open spec fn previous(self) -> Strip {
        if self.front > 0 {
            Strip { front: self.front - 1, ..self }
        } else if self.leaves.len() > 0 {
            Strip { front: self.leaves.len() - 1, ..self }
        } else {
            self
        }
    }

    /// The tabs with the nth in front, counted from one, when there is one.
    pub open spec fn chosen(self, number: int) -> Strip {
        if 1 <= number <= self.leaves.len() {
            Strip { front: number - 1, ..self }
        } else {
            self
        }
    }

    /// What an event says of the tabs: the tabs after it, and what it was.
    pub open spec fn told(self, event: News) -> (Strip, Word) {
        let info = field(event.params, "targetInfo"@);
        let target = match info {
            Some(info) => text_of(field(info, "targetId"@)),
            None => text_of(field(event.params, "targetId"@)),
        };
        match target {
            Some(target) => {
                let i = self.place(target);
                if event.method == "Target.targetCreated"@ {
                    if i == self.leaves.len() && info is Some && text_of(
                        field(info->Some_0, "type"@),
                    ) == Some("page"@) {
                        (
                            self,
                            Word::Connect {
                                target,
                                url: match text_of(field(info->Some_0, "url"@)) {
                                    Some(url) => url,
                                    None => Seq::empty(),
                                },
                            },
                        )
                    } else {
                        (self, Word::Ignored)
                    }
                } else if event.method == "Target.targetInfoChanged"@ {
                    match info {
                        Some(info) => match text_of(field(info, "url"@)) {
                            Some(url) => if i < self.leaves.len() && self.leaves[i].url != url
                                && self.leaves[i].problem is None && !self.leaves[i].loading
                                && !starts(url, "chrome-error:"@) {
                                (
                                    Strip {
                                        leaves: self.leaves.update(
                                            i,
                                            Leaf { url, ..self.leaves[i] },
                                        ),
                                        ..self
                                    },
                                    Word::Renamed,
                                )
                            } else {
                                (self, Word::Ignored)
                            },
                            None => (self, Word::Ignored),
                        },
                        None => (self, Word::Ignored),
                    }
                } else if event.method == "Target.targetDestroyed"@ && i < self.leaves.len() {
                    (self.closed(i), Word::Gone { target, why: None })
                } else if event.method == "Target.targetCrashed"@ && i < self.leaves.len() {
                    (self.closed(i), Word::Gone { target, why: Some(CRASHED@) })
                } else {
                    (self, Word::Ignored)
                }
            },
            None => (self, Word::Ignored),
        }
    }
}

/// The place of a target is in the list, or at its end.
proof fn lemma_place(tabs: Seq<Leaf>, target: Seq<char>, i: int)
    requires
        0 <= i <= tabs.len(),
    ensures
        i <= place_from(tabs, target, i) <= tabs.len(),
        place_from(tabs, target, i) < tabs.len() ==> tabs[place_from(tabs, target, i)].target
            == target,
        forall|k: int| i <= k < place_from(tabs, target, i) ==> (#[trigger] tabs[k]).target != target,
    decreases tabs.len() - i,
{
    if i < tabs.len() && tabs[i].target != target {
        lemma_place(tabs, target, i + 1);
    }
}

impl Tabs {
    /// One of the tabs is in front, unless there is none, and what is being
    /// typed in each can be typed into.
    pub open spec fn wf(self) -> bool {
        &&& self@.valid()
        &&& forall|i: int| 0 <= i < self.list@.len() ==> (#[trigger] self.list@[i]).wf()
    }

    /// One tab, in front.
    pub fn new(tab: Tab) -> (r: Tabs)
        requires
            tab.wf(),
        ensures
            r.wf(),
            r@ == (Strip { leaves: seq![tab@], front: 0 }),
    {
        let r = Tabs { list: vec![tab], front: 0 };
        proof {
            assert(r@.leaves =~= seq![tab@]);
        }
        r
    }

    /// How many tabs there are.
    pub fn len(&self) -> (r: usize)
        ensures
            r == self@.leaves.len(),
    {
        self.list.len()
    }

    /// Whether there is no tab left.
    pub fn is_empty(&self) -> (r: bool)
        ensures
            r == (self@.leaves.len() == 0),
    {
        self.list.len() == 0
    }

    /// Which tab is in front.
    pub fn active_index(&self) -> (r: usize)
        ensures
            r == self@.front,
    {
        self.front
    }

    /// The page in front.
    pub fn active(&self) -> (r: Option<&Tab>)
        requires
            self.wf(),
        ensures
            match r {
                Some(tab) => self@.active() == Some(tab@) && tab.wf() && *tab
                    == self.list@[self.front as int],
                None => self@.active() is None,
            },
    {
        if self.front < self.list.len() {
            Some(&self.list[self.front])
        } else {
            None
        }
    }

    /// The target of the page in front.
    pub fn active_target(&self) -> (r: Option<String>)
        requires
            self.wf(),
        ensures
            maybe(r) == self@.active_target(),
    {
        match self.active() {
            Some(tab) => Some(tab.target.clone()),
            None => None,
        }
    }

    /// Where the page of a target is.
    pub fn index_of(&self, target: &str) -> (r: Option<usize>)
        ensures
            match r {
                Some(i) => i == self@.place(target@) && i < self@.leaves.len(),
                None => self@.place(target@) == self@.leaves.len(),
            },
    {
        let mut i: usize = 0;
        while i < self.list.len()
            invariant
                i <= self.list@.len(),
                self@.place(target@) == place_from(self@.leaves, target@, i as int),
            decreases self.list@.len() - i,
        {
            proof {
                assert(self@.leaves[i as int] == self.list@[i as int]@);
            }
            if same(self.list[i].target.as_str(), target) {
                return Some(i);
            }
            i += 1;
        }
        None
    }

    /// Put another page in front in the place of the one that is.
    pub(crate) fn put(&mut self, i: usize, tab: Tab)
        requires
            old(self).wf(),
            i < old(self)@.leaves.len(),
            tab.wf(),
        ensures
            final(self).wf(),
            final(self)@ == (Strip {
                leaves: old(self)@.leaves.update(i as int, tab@),
                ..old(self)@
            }),
    {
        let ghost before = self.list@;
        self.list.set(i, tab);
        proof {
            assert(self.list@ == before.update(i as int, tab));
            assert(leaves(self.list@) =~= leaves(before).update(i as int, tab@));
            assert forall|k: int| 0 <= k < self.list@.len() implies (#[trigger] self.list@[k]).wf() by {
                if k != i {
                    assert(before[k].wf());
                }
            }
        }
    }

    /// A sentence on the row of the page in front, in place of its title until
    /// the next landing.
    pub fn note(&mut self, sentence: String)
        requires
            old(self).wf(),
        ensures
            final(self).wf(),
            final(self)@ == old(self)@.noted(sentence@),
    {
        let i = self.front;
        if i < self.list.len() {
            let ghost before = self.list@;
            let tab = &mut self.list[i];
            tab.note = Some(sentence);
            proof {
                lemma_one_changed(before, self.list@, i as int);
                assert(self@ =~= old(self)@.noted(sentence@));
            }
        }
    }

    /// One more tab, in front.
    pub fn open(&mut self, tab: Tab)
        requires
            old(self).wf(),
            tab.wf(),
        ensures
            final(self).wf(),
            final(self)@ == old(self)@.opened(tab@),
    {
        let ghost before = self.list@;
        self.front = self.list.len();
        self.list.push(tab);
        proof {
            assert(leaves(self.list@) =~= leaves(before).push(tab@));
            assert forall|k: int| 0 <= k < self.list@.len() implies (#[trigger] self.list@[k]).wf() by {
                if k < before.len() {
                    assert(before[k].wf());
                }
            }
        }
    }

    /// Take a tab out of the list.
    pub fn close(&mut self, i: usize) -> (r: Option<Tab>)
        requires
            old(self).wf(),
        ensures
            final(self).wf(),
            final(self)@ == old(self)@.closed(i as int),
            match r {
                Some(tab) => i < old(self)@.leaves.len() && tab@ == old(self)@.leaves[i as int],
                None => i >= old(self)@.leaves.len(),
            },
    {
        if i >= self.list.len() {
            return None;
        }
        let ghost before = self.list@;
        let tab = self.list.remove(i);
        if i < self.front || (i == self.front && i == self.list.len() && i > 0) {
            self.front = self.front - 1;
        }
        proof {
            assert(leaves(self.list@) =~= leaves(before).remove(i as int));
            assert forall|k: int| 0 <= k < self.list@.len() implies (#[trigger] self.list@[k]).wf() by {
                if k < i {
                    assert(before[k].wf());
                } else {
                    assert(before[k + 1].wf());
                }
            }
        }
        Some(tab)
    }

    /// Put the next tab in front; whether that is another.
    pub fn select_next(&mut self) -> (r: bool)
        requires
            old(self).wf(),
        ensures
            final(self).wf(),
            final(self)@ == old(self)@.next(),
            r == (final(self)@.front != old(self)@.front),
    {
        let was = self.front;
        let n = self.list.len();
        if was < n && was + 1 < n {
            self.front = was + 1;
        } else {
            self.front = 0;
        }
        self.front != was
    }

    /// Put the tab before in front; whether that is another.
    pub fn select_previous(&mut self) -> (r: bool)
        requires
            old(self).wf(),
        ensures
            final(self).wf(),
            final(self)@ == old(self)@.previous(),
            r == (final(self)@.front != old(self)@.front),
    {
        let was = self.front;
        if was > 0 {
            self.front = was - 1;
        } else if self.list.len() > 0 {
            self.front = self.list.len() - 1;
        }
        self.front != was
    }

    /// Put the nth tab in front, counted from one; whether that is another.
    pub fn select(&mut self, number: usize) -> (r: bool)
        requires
            old(self).wf(),
        ensures
            final(self).wf(),
            final(self)@ == old(self)@.chosen(number as int),
            r == (final(self)@.front != old(self)@.front),
    {
        let was = self.front;
        if 1 <= number && number <= self.list.len() {
            self.front = number - 1;
        }
        self.front != was
    }

    /// What an event on the browser's own connection says of the tabs.
    pub fn take(&mut self, event: &Event) -> (r: TargetNews)
        requires
            old(self).wf(),
        ensures
            final(self).wf(),
            (final(self)@, r@) == old(self)@.told(event@),
    {
        let info = event.params.get("targetInfo");
        let target = match info {
            Some(info) => info.text_at("targetId"),
            None => event.params.text_at("targetId"),
        };
        let target = match target {
            Some(target) => target,
            None => return TargetNews::Ignored,
        };
        let place = self.index_of(target);
        let method = event.method.as_str();
        if same(method, "Target.targetCreated") {
            return match (place, info) {
                (None, Some(info)) => if info.says("type", "page") {
                    let url = match info.text_at("url") {
                        Some(url) => url.to_owned(),
                        None => String::new(),
                    };
                    TargetNews::Connect { target: target.to_owned(), url }
                } else {
                    TargetNews::Ignored
                },
                _ => TargetNews::Ignored,
            };
        }
        if same(method, "Target.targetInfoChanged") {
            return match (place, info) {
                (Some(i), Some(info)) => match info.text_at("url") {
                    Some(url) => self.renamed(i, url),
                    None => TargetNews::Ignored,
                },
                _ => TargetNews::Ignored,
            };
        }
        match place {
            Some(i) => if same(method, "Target.targetDestroyed") {
                let _ = self.close(i);
                TargetNews::Gone { target: target.to_owned(), why: None }
            } else if same(method, "Target.targetCrashed") {
                let _ = self.close(i);
                TargetNews::Gone { target: target.to_owned(), why: Some(CRASHED.to_owned()) }
            } else {
                TargetNews::Ignored
            },
            None => TargetNews::Ignored,
        }
    }

    /// A page has another url, unless it is on its way somewhere, or did not
    /// come.
    fn renamed(&mut self, i: usize, url: &str) -> (r: TargetNews)
        requires
            old(self).wf(),
            i < old(self)@.leaves.len(),
        ensures
            final(self).wf(),
            ({
                let leaf = old(self)@.leaves[i as int];
                if leaf.url != url@ && leaf.problem is None && !leaf.loading && !starts(
                    url@,
                    "chrome-error:"@,
                ) {
                    final(self)@ == (Strip {
                        leaves: old(self)@.leaves.update(i as int, Leaf { url: url@, ..leaf }),
                        ..old(self)@
                    }) && r == TargetNews::Renamed
                } else {
                    final(self)@ == old(self)@ && r == TargetNews::Ignored
                }
            }),
    {
        let ghost before = self.list@;
        let chars = chars_of(url);
        proof {
            assert(self@.leaves[i as int] == self.list@[i as int]@);
            assert(before[i as int].wf());
        }
        if same(self.list[i].url.as_str(), url) || self.list[i].problem.is_some()
            || self.list[i].loading || starts_with_word(chars.as_slice(), "chrome-error:") {
            return TargetNews::Ignored;
        }
        let tab = &mut self.list[i];
        tab.url = url.to_owned();
        proof {
            lemma_one_changed(before, self.list@, i as int);
            assert(self.list@[i as int]@ =~= (Leaf { url: url@, ..before[i as int]@ }));
            assert(self@ =~= (Strip {
                leaves: leaves(before).update(i as int, Leaf { url: url@, ..before[i as int]@ }),
                ..old(self)@
            }));
        }
        TargetNews::Renamed
    }
}

/// A list in which one tab has changed is the list with that one changed.
pub proof fn lemma_one_changed(before: Seq<Tab>, after: Seq<Tab>, i: int)
    requires
        0 <= i < before.len(),
        after.len() == before.len(),
        forall|k: int| 0 <= k < before.len() && k != i ==> after[k] == before[k],
        forall|k: int| 0 <= k < before.len() && k != i ==> (#[trigger] before[k]).wf(),
        after[i].wf(),
    ensures
        leaves(after) == leaves(before).update(i, after[i]@),
        forall|k: int| 0 <= k < after.len() ==> (#[trigger] after[k]).wf(),
{
    assert(leaves(after) =~= leaves(before).update(i, after[i]@));
    assert forall|k: int| 0 <= k < after.len() implies (#[trigger] after[k]).wf() by {
        if k != i {
            assert(before[k].wf());
        }
    }
}

// ---- laws ----

/// Whatever a page calls itself, and whatever its url holds, the row and the
/// strip say plain text.
pub proof fn law_what_a_row_says_of_a_page_is_plain(leaf: Leaf)
    ensures
        all_plain(sanitized(leaf.said())),
        all_plain(sanitized(leaf.labelled())),
{
    law_sanitized_is_plain(leaf.said());
    law_sanitized_is_plain(leaf.labelled());
}

/// Closing a tab behind leaves the one in front in front.
pub proof fn law_closing_a_tab_behind_leaves_the_one_in_front(s: Strip, i: int)
    requires
        s.valid(),
        0 <= i < s.leaves.len(),
        i != s.front,
    ensures
        s.closed(i).active() == s.active(),
        s.closed(i).valid(),
{
}

/// Closing the tab that was just opened leaves the tabs as they were, with the
/// last of them in front.
pub proof fn law_closing_undoes_opening(s: Strip, leaf: Leaf)
    requires
        s.valid(),
    ensures
        s.opened(leaf).closed(s.leaves.len() as int).leaves == s.leaves,
        s.leaves.len() > 0 ==> s.opened(leaf).closed(s.leaves.len() as int).front == s.leaves.len()
            - 1,
{
    assert(s.opened(leaf).leaves.remove(s.leaves.len() as int) =~= s.leaves);
}

/// The tab before the next one is the one it started from, and so is the next
/// after the one before.
pub proof fn law_previous_undoes_next(s: Strip)
    requires
        s.valid(),
    ensures
        s.next().previous() == s,
        s.previous().next() == s,
{
}

/// No two tabs are of one target.
pub open spec fn one_per_target(tabs: Seq<Leaf>) -> bool {
    forall|i: int, j: int|
        0 <= i < j < tabs.len() ==> (#[trigger] tabs[i]).target != (#[trigger] tabs[j]).target
}

/// No event makes two tabs of one target, and neither does opening the tab that
/// an event asks for.
pub proof fn law_a_page_is_one_tab(s: Strip, event: News)
    requires
        one_per_target(s.leaves),
        s.valid(),
    ensures
        one_per_target(s.told(event).0.leaves),
        s.told(event).0.valid(),
        s.told(event).1 matches Word::Connect { target, url } ==> one_per_target(
            s.opened(Leaf::fresh(target, url)).leaves,
        ),
{
    let info = field(event.params, "targetInfo"@);
    let target = match info {
        Some(info) => text_of(field(info, "targetId"@)),
        None => text_of(field(event.params, "targetId"@)),
    };
    if target is Some {
        lemma_place(s.leaves, target->Some_0, 0);
    }
}

/// The tabs are a ring: the next of the last is the first and the one before the
/// first is the last; a number is the tab that stands at it, and a number that
/// none stands at changes nothing.
pub proof fn law_the_tabs_are_a_ring(s: Strip, number: int)
    requires
        s.valid(),
        s.leaves.len() > 0,
    ensures
        s.next().front == (s.front + 1) % (s.leaves.len() as int),
        s.previous().front == (s.front + s.leaves.len() - 1) % (s.leaves.len() as int),
        s.next().leaves == s.leaves && s.previous().leaves == s.leaves,
        1 <= number <= s.leaves.len() ==> s.chosen(number).active() == Some(s.leaves[number - 1]),
        !(1 <= number <= s.leaves.len()) ==> s.chosen(number) == s,
        s.chosen(number).leaves == s.leaves,
{
    let n = s.leaves.len() as int;
    let front = s.front;
    if front + 1 < n {
        assert((front + 1) % n == front + 1) by (nonlinear_arith)
            requires
                0 <= front,
                front + 1 < n,
        ;
    } else {
        assert((front + 1) % n == 0) by (nonlinear_arith)
            requires
                front + 1 == n,
                n > 0,
        ;
    }
    if front > 0 {
        assert((front + n - 1) % n == front - 1) by (nonlinear_arith)
            requires
                0 < front < n,
        ;
    } else {
        assert((front + n - 1) % n == n - 1) by (nonlinear_arith)
            requires
                front == 0,
                n > 0,
        ;
    }
}

/// The tab in front gives way to the one after it, or to the one before it when
/// it was the last; the others stay, in their order.
pub proof fn law_the_neighbour_comes_to_the_front(s: Strip)
    requires
        s.valid(),
        s.leaves.len() > 1,
    ensures
        s.closed(s.front).leaves == s.leaves.take(s.front) + s.leaves.skip(s.front + 1),
        s.front + 1 < s.leaves.len() ==> s.closed(s.front).active() == Some(
            s.leaves[s.front + 1],
        ),
        s.front + 1 == s.leaves.len() ==> s.closed(s.front).active() == Some(
            s.leaves[s.front - 1],
        ),
{
    assert(s.closed(s.front).leaves =~= s.leaves.take(s.front) + s.leaves.skip(s.front + 1));
}

/// A tab that is opened is the last and in front, and the others stay.
pub proof fn law_an_opened_tab_is_in_front(s: Strip, leaf: Leaf)
    requires
        s.valid(),
    ensures
        s.opened(leaf).active() == Some(leaf),
        s.opened(leaf).leaves.drop_last() == s.leaves,
        s.opened(leaf).valid(),
{
    assert(s.opened(leaf).leaves.drop_last() =~= s.leaves);
}

/// A page is in the place of its target, the first there is, and nowhere when
/// there is none.
pub proof fn law_a_page_is_found_by_its_target(s: Strip, i: int, target: Seq<char>)
    requires
        one_per_target(s.leaves),
        0 <= i < s.leaves.len(),
    ensures
        s.place(s.leaves[i].target) == i,
        (forall|k: int| 0 <= k < s.leaves.len() ==> (#[trigger] s.leaves[k]).target != target)
            ==> s.place(target) == s.leaves.len(),
{
    lemma_place(s.leaves, s.leaves[i].target, 0);
    lemma_place(s.leaves, target, 0);
}

/// A page that came is at its address with nothing left of what was there: no
/// title, no note, no trouble and no chooser. One that did not come is at the
/// address that it did not come from, and says so.
pub proof fn law_a_landing_starts_afresh(leaf: Leaf, url: Seq<char>, code: Seq<char>)
    ensures
        ({
            let came = leaf.landed(Arrival { url, came: true });
            &&& came.url == url && came.title.len() == 0 && came.note is None
            &&& came.problem is None && came.upload is None
            &&& came.loading == leaf.loading && came.dialog == leaf.dialog
            &&& came.target == leaf.target
        }),
        ({
            let not = leaf.landed(Arrival { url, came: false });
            &&& not.url == url && !not.loading && not.upload is None && not.note is None
            &&& not.problem matches Some(Trouble::Unreachable { url: at, code: why }) && at == url
                && (leaf.problem == Some(Trouble::Unreachable { url, code }) ==> why == code)
        }),
        leaf.turned_away(url, code).problem == Some(Trouble::Unreachable { url, code }),
        leaf.turned_away(url, code).url == url,
        !leaf.turned_away(url, code).loading,
        leaf.turned_away(url, code).title == leaf.title,
{
}

/// A page that loaded has its title, and its trouble is the status that is one:
/// four hundred and up; one that could not be reached stays so.
pub proof fn law_a_bad_status_is_trouble(leaf: Leaf, report: Report)
    ensures
        leaf.after_load(report).title == report.title,
        leaf.after_load(report).url == leaf.url,
        leaf.problem matches Some(Trouble::Unreachable { .. }) ==> leaf.after_load(report).problem
            == leaf.problem,
        !(leaf.problem matches Some(Trouble::Unreachable { .. })) ==> leaf.after_load(report).problem
            == if report.status matches Some(n) && n >= 400 {
            Some(Trouble::Status(report.status->Some_0))
        } else {
            None
        },
{
}

/// What the row says of a page: the note while there is one, then what is wrong,
/// then its title and its address, and the program's own name when there is
/// neither.
pub proof fn law_a_page_is_said_by_its_title_and_its_address(leaf: Leaf, words: Seq<char>)
    ensures
        (Leaf { note: Some(words), ..leaf }).said() == words,
        ({
            let quiet = Leaf { note: None, problem: None, ..leaf };
            &&& leaf.title.len() > 0 && leaf.url.len() > 0 ==> quiet.said() == leaf.title
                + "  —  "@ + leaf.url
            &&& leaf.title.len() > 0 && leaf.url.len() == 0 ==> quiet.said() == leaf.title
            &&& leaf.title.len() == 0 && leaf.url.len() > 0 ==> quiet.said() == leaf.url
            &&& leaf.title.len() == 0 && leaf.url.len() == 0 ==> quiet.said() == "blinkterm"@
            &&& quiet.labelled() == if leaf.title.len() > 0 {
                leaf.title
            } else if leaf.url.len() > 0 {
                leaf.url
            } else {
                "blinkterm"@
            }
        }),
        leaf.note is None ==> (leaf.problem matches Some(Trouble::Unreachable { url, code })
            ==> leaf.said() == "cannot reach "@ + url + ": "@ + code && leaf.labelled()
            == "cannot reach "@ + url),
        leaf.note is None ==> (leaf.problem matches Some(Trouble::Status(n)) ==> leaf.said()
            == decimal(n as nat) + "  "@ + (Leaf { note: None, problem: None, ..leaf }).said()),
{
}

/// What the engine says of its pages: a new page that is nobody's yet is to be
/// connected to, one that is gone takes its tab with it, and a new address is
/// taken only while nothing better is known.
pub proof fn law_the_engine_says_what_becomes_of_a_page(
    s: Strip,
    target: Seq<char>,
    url: Seq<char>,
    method: Seq<char>,
)
    requires
        s.valid(),
    ensures
        ({
            let info = Value::Record(
                seq![
                    ("targetId"@, Value::Text(target)),
                    ("type"@, Value::Text("page"@)),
                    ("url"@, Value::Text(url)),
                ],
            );
            let of = |m: Seq<char>| News { method: m, params: Value::Record(seq![("targetInfo"@, info)]) };
            let bare = |m: Seq<char>|
                News { method: m, params: Value::Record(seq![("targetId"@, Value::Text(target))]) };
            let i = s.place(target);
            let known = i < s.leaves.len();
            &&& s.told(of("Target.targetCreated"@)) == (
                s,
                if known {
                    Word::Ignored
                } else {
                    Word::Connect { target, url }
                },
            )
            &&& s.told(bare("Target.targetDestroyed"@)) == if known {
                (s.closed(i), Word::Gone { target, why: None })
            } else {
                (s, Word::Ignored)
            }
            &&& s.told(bare("Target.targetCrashed"@)) == if known {
                (s.closed(i), Word::Gone { target, why: Some("the page crashed"@) })
            } else {
                (s, Word::Ignored)
            }
            &&& known && s.leaves[i].url != url && s.leaves[i].problem is None
                && !s.leaves[i].loading && !starts(url, "chrome-error:"@) ==> s.told(
                of("Target.targetInfoChanged"@),
            ) == (
                Strip { leaves: s.leaves.update(i, Leaf { url, ..s.leaves[i] }), ..s },
                Word::Renamed,
            )
            &&& !known || s.leaves[i].problem is Some || s.leaves[i].loading || starts(
                url,
                "chrome-error:"@,
            ) ==> s.told(of("Target.targetInfoChanged"@)) == (s, Word::Ignored)
        }),
{
    lemma_place(s.leaves, target, 0);
    let info = seq![
        ("targetId"@, Value::Text(target)),
        ("type"@, Value::Text("page"@)),
        ("url"@, Value::Text(url)),
    ];
    let outer = seq![("targetInfo"@, Value::Record(info))];
    let bare = seq![("targetId"@, Value::Text(target))];
    reveal_strlit("targetId");
    reveal_strlit("type");
    reveal_strlit("url");
    reveal_strlit("targetInfo");
    assert("targetId"@.len() == 8);
    assert("type"@.len() == 4);
    assert("url"@.len() == 3);
    assert("targetInfo"@.len() == 10);
    reveal_strlit("Target.targetCreated");
    reveal_strlit("Target.targetDestroyed");
    reveal_strlit("Target.targetCrashed");
    reveal_strlit("Target.targetInfoChanged");
    assert("Target.targetCreated"@.len() == 20);
    assert("Target.targetDestroyed"@.len() == 22);
    assert("Target.targetCrashed"@.len() == 20);
    assert("Target.targetInfoChanged"@.len() == 24);
    assert("Target.targetCreated"@[15] != "Target.targetCrashed"@[15]);
    assert(info[0].0 == "targetId"@ && info[1].0 == "type"@ && info[2].0 == "url"@);
    assert(outer[0].0 == "targetInfo"@);
    assert(bare[0].0 == "targetId"@);
    assert(named_once(info));
    lemma_each_is_found(info);
    lemma_each_is_found(outer);
    lemma_each_is_found(bare);
    lemma_none_is_found(bare, "targetInfo"@);
}

}
