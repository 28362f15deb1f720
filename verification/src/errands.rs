//! What comes back of what was done outside: the answer to a navigation, a page
//! that was opened, what is selected, the pages a history has; and what follows
//! a change of which tab is in front.
use vstd::prelude::*;

use crate::address::{normalise, normalised};
use crate::app::{
    and_then_act, both, deeds, just, lemma_deeds, nothing, three, Act, Browser, Copied, Deed, Desk,
    Navigation, Voyage,
};
use crate::bar::{Bar, UrlBar};
use crate::bytes::utf8;
use crate::clipboard::selection;
use crate::double::{double_of, law_a_short_whole_number_is_exact};
use crate::download::became_download;
use crate::fit::{at_least_one, bounded_product, Cells, Metrics};
use crate::graphics::{clear_bytes, clear_command};
use crate::json::{
    bool_of, field, field2, lemma_each_is_found, lemma_list_view, list_of, named_once, record_of,
    text_of, whole_of, Json, Value,
};
use crate::line::{Line, Typing};
use crate::load::{current_url, failed, failure_of, url_in_history};
use crate::mouse::whole;
use crate::seek::{Coming, Drawn, Echo, Find, Hunt, Next, Pumped, Reply};
use crate::strings::same;
use crate::tabs::{leaves, lemma_one_changed, Leaf, Strip, Tab};
use crate::text::sanitized;
use crate::upload::maybe;

verus! {

// ---- how big a page is ----

/// The page's size in pixels: the pane, less the status row.
pub fn page_pixels(metrics: Metrics) -> (r: (u32, u32))
    ensures
        r == (
            bounded_product(at_least_one(metrics.cols as int), metrics.cell.0),
            bounded_product(at_least_one(metrics.rows - 1), metrics.cell.1),
        ),
        r.0 >= 1,
        r.1 >= 1,
{
    metrics.usable_pixels()
}

/// The page's size in cells, which is what the placement asks for.
pub fn page_cells(metrics: Metrics) -> (r: Cells)
    ensures
        r == (Cells {
            cols: at_least_one(metrics.cols as int),
            rows: at_least_one(metrics.rows - 1),
        }),
{
    let cols: u32 = if metrics.cols == 0 {
        1
    } else {
        metrics.cols
    };
    Cells { cols, rows: metrics.usable_rows() }
}

/// What tells the engine how big a page is.
pub open spec fn sized(width: u32, height: u32) -> Value {
    Value::Record(
        seq![
            ("width"@, whole(width as int)),
            ("height"@, whole(height as int)),
            ("deviceScaleFactor"@, whole(1)),
            ("mobile"@, Value::Bool(false)),
        ],
    )
}

/// The parameters of the `Emulation.setDeviceMetricsOverride` that tells the
/// engine how big the page is.
pub fn emulate_params(metrics: Metrics) -> (r: Json)
    ensures
        r@ == sized(
            bounded_product(at_least_one(metrics.cols as int), metrics.cell.0),
            bounded_product(at_least_one(metrics.rows - 1), metrics.cell.1),
        ),
{
    let (width, height) = page_pixels(metrics);
    let fields = vec![
        ("width", Json::number(width as i64)),
        ("height", Json::number(height as i64)),
        ("deviceScaleFactor", Json::number(1)),
        ("mobile", Json::Bool(false)),
    ];
    proof {
        assert(record_of(fields@) =~= sized(width, height)->Record_0);
    }
    Json::object(fields)
}

/// How good the pictures of a moving page are, out of a hundred.
pub const QUALITY: i64 = 80;

/// What starts the frames of a page coming.
pub open spec fn cast(width: u32, height: u32) -> Value {
    Value::Record(
        seq![
            ("format"@, Value::Text("jpeg"@)),
            ("quality"@, whole(QUALITY as int)),
            ("maxWidth"@, whole(width as int)),
            ("maxHeight"@, whole(height as int)),
            ("everyNthFrame"@, whole(1)),
        ],
    )
}

/// The parameters of the `Page.startScreencast` that starts the frames coming.
pub fn screencast_params(metrics: Metrics) -> (r: Json)
    ensures
        r@ == cast(
            bounded_product(at_least_one(metrics.cols as int), metrics.cell.0),
            bounded_product(at_least_one(metrics.rows - 1), metrics.cell.1),
        ),
{
    let (width, height) = page_pixels(metrics);
    let fields = vec![
        ("format", Json::string("jpeg")),
        ("quality", Json::number(QUALITY)),
        ("maxWidth", Json::number(width as i64)),
        ("maxHeight", Json::number(height as i64)),
        ("everyNthFrame", Json::number(1)),
    ];
    proof {
        assert(record_of(fields@) =~= cast(width, height)->Record_0);
    }
    Json::object(fields)
}

// ---- telling and asking ----

/// A command to a page: waited for, unless the page is stopped, which answers
/// nothing until its dialog has been answered. Told, it does it then.
pub open spec fn put_to(
    target: Seq<char>,
    stopped: bool,
    method: Seq<char>,
    params: Value,
) -> Deed {
    if stopped {
        Deed::Tell { target, method, params }
    } else {
        Deed::Call { target, method, params }
    }
}

/// A command to a page: told rather than asked when the page is stopped.
pub fn tell(target: String, stopped: bool, method: &'static str, params: Json) -> (r: Act)
    ensures
        r@ == put_to(target@, stopped, method@, params@),
{
    if stopped {
        Act::Tell { target, method, params }
    } else {
        Act::Call { target, method, params }
    }
}

// ---- navigations ----

/// What the reply to a navigation says of the page it was sent to: the page
/// after it, and whether it stayed where it was because the url was a file.
pub open spec fn navigated_leaf(leaf: Leaf, url: Seq<char>, reply: Value) -> (Leaf, bool) {
    if bool_of(field(reply, "isDownload"@)) == Some(true) && text_of(field(reply, "errorText"@))
        == Some("net::ERR_ABORTED"@) {
        (Leaf { note: None, loading: false, ..leaf }, true)
    } else {
        match failure_of(reply) {
            Some(code) => (leaf.turned_away(url, code), false),
            None => (leaf, false),
        }
    }
}

/// What a `Page.navigate` reply says of the page it was sent to. Only anything
/// when the navigation failed, or when the url turned out to be a file: then
/// the page is still where it was, and `true` says so.
pub fn navigated(tab: &mut Tab, url: &str, reply: &Json) -> (r: bool)
    requires
        old(tab).wf(),
    ensures
        final(tab).wf(),
        (final(tab)@, r) == navigated_leaf(old(tab)@, url@, reply@),
{
    if became_download(reply) {
        tab.note = None;
        tab.loading = false;
        proof {
            assert(tab@ =~= (Leaf { note: None, loading: false, ..old(tab)@ }));
        }
        return true;
    }
    match failed(reply) {
        Some(code) => tab.failed_to_reach(url, code.as_str()),
        None => {},
    }
    false
}

/// The row is drawn again when what it says of a page has changed.
pub open spec fn redrawn(before: Leaf, after: Leaf) -> Seq<Deed> {
    if sanitized(after.said()) != sanitized(before.said()) {
        seq![Deed::Redraw]
    } else {
        Seq::empty()
    }
}

/// Draw the row when what it says has changed.
fn redraw_if(before: &str, after: &str) -> (r: Vec<Act>)
    ensures
        deeds(r@) == (if after@ != before@ {
            seq![Deed::Redraw]
        } else {
            Seq::<Deed>::empty()
        }),
{
    if same(after, before) {
        nothing()
    } else {
        just(Act::Redraw)
    }
}

/// The walk through a page's own history by `delta`: the entry to go to, or
/// nothing when there is none that way.
pub open spec fn entry_at(history: Value, delta: int) -> Option<Value> {
    let index = match whole_of(field(history, "currentIndex"@)) {
        Some(i) => i as int,
        None => 0,
    };
    let entries = match list_of(field(history, "entries"@)) {
        Some(entries) => entries,
        None => Seq::empty(),
    };
    if 0 <= index + delta < entries.len() {
        Some(entries[index + delta])
    } else {
        None
    }
}

/// What sends a page to an entry of its own history.
pub open spec fn to_entry(id: i64) -> Value {
    Value::Record(seq![("entryId"@, whole(id as int))])
}

/// The target of a page that was opened, out of the reply that says so.
pub open spec fn opened_target(reply: Value) -> Option<Seq<char>> {
    text_of(field(reply, "targetId"@))
}

/// The target of a page that was opened, out of the reply that says so.
pub fn created(reply: &Json) -> (r: Result<String, String>)
    ensures
        match r {
            Ok(target) => opened_target(reply@) == Some(target@),
            Err(why) => opened_target(reply@) is None && why@
                == "the engine opened a page and did not say which"@,
        },
{
    match reply.text_at("targetId") {
        Some(target) => Ok(target.to_owned()),
        None => Err("the engine opened a page and did not say which".to_owned()),
    }
}

impl Desk {
    /// The page that was asked for on the command line.
    pub open spec fn begun(self, url: Seq<char>) -> (Desk, Seq<Deed>) {
        match self.tabs.active() {
            Some(leaf) => (
                self.with_front(
                    Leaf {
                        url: normalised(url),
                        note: Some(crate::app::loading(normalised(url))),
                        loading: true,
                        ..leaf
                    },
                ),
                seq![
                    Deed::Redraw,
                    Deed::Navigate { target: leaf.target, url: normalised(url) },
                    Deed::Redraw,
                ],
            ),
            None => (self, Seq::empty()),
        }
    }

    /// A navigation has gone, under a ticket, or it could not be sent. One still
    /// out when another is asked for is dropped, and so is what was wrong with
    /// the page before: the reason of an earlier one cannot be pinned on this.
    pub open spec fn navigating(
        self,
        target: Seq<char>,
        url: Seq<char>,
        sent: Result<i64, Seq<char>>,
    ) -> Desk {
        let cleared = match self.tabs.active() {
            Some(leaf) => self.with_front(Leaf { problem: None, ..leaf }),
            None => self,
        };
        match sent {
            Ok(ticket) => Desk { navigation: Some(Voyage { target, url, ticket }), ..cleared },
            Err(why) => (Desk { navigation: None, ..cleared }).noted(why),
        }
    }

    /// A look for the answer to the navigation: what there is after it, and what
    /// is to be done. A page that is no longer in front is one the answer is not
    /// for any more.
    pub open spec fn navigation_collected(self, reply: Echo) -> (Desk, Seq<Deed>) {
        match self.navigation {
            None => (self, Seq::empty()),
            Some(voyage) => if self.tabs.active_target() != Some(voyage.target) {
                (Desk { navigation: None, ..self }, Seq::empty())
            } else {
                let rest = Desk { navigation: None, ..self };
                let leaf = self.tabs.active()->Some_0;
                match reply {
                    Echo::Nothing => (self, Seq::empty()),
                    Echo::Refused(why) => (
                        rest.noted(why),
                        redrawn(leaf, Leaf { note: Some(why), ..leaf }),
                    ),
                    Echo::Came(reply) => {
                        let (after, stayed) = navigated_leaf(leaf, voyage.url, reply);
                        (
                            rest.with_front(after),
                            if stayed {
                                seq![
                                    Deed::CurrentUrl { target: leaf.target },
                                    Deed::RedrawFrom { line: sanitized(leaf.said()) },
                                ]
                            } else {
                                redrawn(leaf, after)
                            },
                        )
                    },
                }
            },
        }
    }

    /// The engine's own history says where the page of a target is.
    pub open spec fn stayed_at(self, target: Seq<char>, history: Value) -> Desk {
        let i = self.tabs.place(target);
        match url_in_history(history) {
            Some(url) => if i < self.tabs.leaves.len() {
                Desk {
                    tabs: Strip {
                        leaves: self.tabs.leaves.update(
                            i,
                            Leaf { url, ..self.tabs.leaves[i] },
                        ),
                        ..self.tabs
                    },
                    ..self
                }
            } else {
                self
            },
            None => self,
        }
    }

    /// The page in front walked by one entry of its own history, which was just
    /// asked for.
    pub open spec fn gone(self, history: Value, delta: i64) -> (Desk, Seq<Deed>) {
        match self.tabs.active() {
            Some(leaf) => match entry_at(history, delta as int) {
                Some(entry) => match whole_of(field(entry, "id"@)) {
                    Some(id) => (
                        self,
                        seq![
                            Deed::Call {
                                target: leaf.target,
                                method: "Page.navigateToHistoryEntry"@,
                                params: to_entry(id),
                            },
                        ],
                    ),
                    None => (self, Seq::empty()),
                },
                None => (
                    self.noted(
                        if delta < 0 {
                            "nothing to go back to"@
                        } else {
                            "nothing to go forward to"@
                        },
                    ),
                    Seq::empty(),
                ),
            },
            None => (self, Seq::empty()),
        }
    }

    /// A page has been opened and attached to, or it has not. A new tab opens
    /// with the cursor in an empty url bar.
    pub open spec fn tab_opened(self, outcome: Result<Seq<char>, Seq<char>>) -> (Desk, Seq<Deed>) {
        match outcome {
            Ok(target) => (
                Desk {
                    tabs: self.tabs.opened(Leaf::fresh(target, "about:blank"@)),
                    bar: Some(
                        Bar {
                            line: Typing {
                                text: Seq::empty(),
                                cursor: 0,
                                whole: false,
                                hint: Seq::empty(),
                            },
                            walk: None,
                        },
                    ),
                    ..self
                },
                seq![Deed::Switched { was: self.tabs.active_target() }, Deed::Redraw],
            ),
            Err(why) => (self.noted(why), seq![Deed::Redraw]),
        }
    }

    /// What the page says is selected in it.
    pub open spec fn selection_came(self, answer: Option<Value>) -> (Desk, Seq<Deed>) {
        match answer {
            Some(reply) => match text_of(field2(reply, "result"@, "value"@)) {
                Some(text) => if text.len() > 0 {
                    let (desk, written) = self.copied_out(text, Copied::Text);
                    (desk, written.push(Deed::Redraw))
                } else {
                    (self.noted("nothing selected"@), seq![Deed::Redraw])
                },
                None => (self.noted("nothing selected"@), seq![Deed::Redraw]),
            },
            None => (self.noted("the page did not answer"@), seq![Deed::Redraw]),
        }
    }

    /// The find script's world in the page of a target.
    pub open spec fn world_made(self, target: Seq<char>, context: Option<i64>) -> Desk {
        match self.find {
            Some(hunt) => if hunt.target == target {
                Desk { find: Some(Hunt { context, ..hunt }), ..self }
            } else {
                self
            },
            None => self,
        }
    }

    /// The prompt searches the page in front.
    pub open spec fn searches_front(self) -> bool {
        self.find matches Some(hunt) && self.tabs.active_target() == Some(hunt.target)
    }

    /// A look for the answer to the search that is out: what there is after it,
    /// whether the row is to be drawn again, and whether the world is to be made
    /// again.
    pub open spec fn pumped(self, reply: Echo, now: u64) -> (Desk, bool, bool) {
        if self.searches_front() {
            let stopped = self.tabs.active()->Some_0.dialog is Some;
            let (hunt, drawn) = self.find->Some_0.collected(reply, stopped, now);
            let desk = Desk { find: Some(hunt), ..self };
            match drawn {
                Drawn::Quiet => (desk, false, false),
                Drawn::Changed => (desk, true, false),
                Drawn::Note(why) => (desk.noted(why), true, false),
                Drawn::Remake => (desk, false, true),
            }
        } else {
            (self, false, false)
        }
    }

    /// What is to be searched for next.
    pub open spec fn search_next(self) -> Coming {
        if self.searches_front() {
            self.find->Some_0.next()
        } else {
            Coming::Nothing
        }
    }

    /// The search has gone, under a ticket, or it could not be sent: what there
    /// is after it, and whether the row is to be drawn again.
    pub open spec fn search_sent(self, sent: Result<i64, Seq<char>>, now: u64) -> (Desk, bool) {
        match self.find {
            Some(hunt) => match sent {
                Ok(ticket) => (
                    Desk { find: Some(hunt.sent(Some(ticket), now)), ..self },
                    false,
                ),
                Err(why) => (
                    (Desk { find: Some(hunt.sent(None, now)), ..self }).noted(why),
                    true,
                ),
            },
            None => (self, false),
        }
    }

    /// Stopping the page of a target from painting, if it is still there.
    pub open spec fn stopping(self, target: Seq<char>) -> Seq<Deed> {
        let i = self.tabs.place(target);
        if i < self.tabs.leaves.len() {
            seq![
                put_to(
                    target,
                    self.tabs.leaves[i].dialog is Some,
                    "Page.stopScreencast"@,
                    Value::Record(Seq::empty()),
                ),
            ]
        } else {
            Seq::empty()
        }
    }

    /// What follows a change of which tab is in front; nothing when there was
    /// none. The find prompt was searching the page being left, and the picture
    /// on the screen is of that page.
    pub open spec fn switched(self, was: Option<Seq<char>>) -> (Desk, Seq<Deed>) {
        let now = self.tabs.active_target();
        if now == was {
            (self, Seq::empty())
        } else {
            let (desk, told) = self.find_closed();
            let left = seq![Deed::Forget] + told + (match was {
                Some(was) => self.stopping(was),
                None => Seq::empty(),
            });
            match now {
                Some(target) => (
                    desk,
                    left.push(Deed::Write(clear_bytes())).push(
                        Deed::Write(utf8("\x1b[2;1H\x1b[J"@)),
                    ).push(Deed::Activate { target }),
                ),
                None => (desk, left),
            }
        }
    }
}

/// What an outcome that carries a text is.
pub open spec fn outcome_of<A>(r: Result<A, String>) -> Result<A, Seq<char>> {
    match r {
        Ok(a) => Ok(a),
        Err(why) => Err(why@),
    }
}

/// What an outcome of two texts is.
pub open spec fn texts_of(r: Result<String, String>) -> Result<Seq<char>, Seq<char>> {
    match r {
        Ok(a) => Ok(a@),
        Err(why) => Err(why@),
    }
}

/// The bytes of a text.
fn bytes_of(text: &str) -> (r: Vec<u8>)
    ensures
        r@ == utf8(text@),
{
    let mut out: Vec<u8> = Vec::new();
    crate::bytes::push_text(&mut out, text);
    proof {
        assert(out@ =~= utf8(text@));
    }
    out
}

impl Browser {
    /// Send the page in front to what was asked for on the command line.
    pub fn begin(&mut self, url: &str) -> (r: Vec<Act>)
        requires
            old(self).wf(),
        ensures
            final(self).wf(),
            (final(self)@, deeds(r@)) == old(self)@.begun(url@),
    {
        let i = self.tabs.front;
        if i >= self.tabs.list.len() {
            return nothing();
        }
        let url = normalise(url);
        let ghost before = self.tabs.list@;
        proof {
            assert(before[i as int].wf());
            assert(self@.tabs.leaves[i as int] == before[i as int]@);
        }
        let target = self.tabs.list[i].target.clone();
        let note = "loading ".to_owned().concat(url.as_str());
        let tab = &mut self.tabs.list[i];
        tab.url = url.clone();
        tab.note = Some(note);
        tab.loading = true;
        proof {
            lemma_one_changed(before, self.tabs.list@, i as int);
            assert(self@ =~= old(self)@.with_front(
                Leaf {
                    url: url@,
                    note: Some(crate::app::loading(url@)),
                    loading: true,
                    ..before[i as int]@
                },
            ));
        }
        three(Act::Redraw, Act::Navigate { target, url }, Act::Redraw)
    }

    /// A navigation has been sent, or it could not be.
    pub fn navigation_sent(&mut self, target: String, url: String, sent: Result<i64, String>)
        requires
            old(self).wf(),
        ensures
            final(self).wf(),
            final(self)@ == old(self)@.navigating(target@, url@, outcome_of(sent)),
    {
        let i = self.tabs.front;
        if i < self.tabs.list.len() {
            let ghost before = self.tabs.list@;
            proof {
                assert(before[i as int].wf());
                assert(self@.tabs.leaves[i as int] == before[i as int]@);
            }
            let tab = &mut self.tabs.list[i];
            tab.problem = None;
            proof {
                lemma_one_changed(before, self.tabs.list@, i as int);
                assert(self@ =~= old(self)@.with_front(
                    Leaf { problem: None, ..before[i as int]@ },
                ));
            }
        }
        match sent {
            Ok(ticket) => {
                self.navigation = Some(Navigation { target, url, ticket });
            },
            Err(why) => {
                self.navigation = None;
                self.note(why);
            },
        }
    }

    /// Whether the page in front says this.
    pub fn says(&self, line: &str) -> (r: bool)
        requires
            self.wf(),
        ensures
            r == (self@.tabs.active() matches Some(leaf) && sanitized(leaf.said()) == line@),
    {
        match self.tabs.active() {
            Some(tab) => same(tab.line().as_str(), line),
            None => false,
        }
    }

    /// Take the answer to the navigation, if it has come back.
    pub fn collect_navigation(&mut self, reply: &Reply) -> (r: Vec<Act>)
        requires
            old(self).wf(),
        ensures
            final(self).wf(),
            (final(self)@, deeds(r@)) == old(self)@.navigation_collected(reply@),
    {
        let mut out: Option<Navigation> = None;
        std::mem::swap(&mut out, &mut self.navigation);
        let navigation = match out {
            Some(navigation) => navigation,
            None => return nothing(),
        };
        let here = match self.tabs.active_target() {
            Some(target) => same(target.as_str(), navigation.target.as_str()),
            None => false,
        };
        if !here {
            return nothing();
        }
        let i = self.tabs.front;
        let said = self.tabs.list[i].line();
        proof {
            assert(self.tabs@.leaves[i as int] == self.tabs.list@[i as int]@);
        }
        match reply {
            Reply::Nothing => {
                self.navigation = Some(navigation);
                nothing()
            },
            Reply::Refused(why) => {
                self.note(why.clone());
                let now = self.tabs.list[i].line();
                proof {
                    assert(self.tabs@.leaves[i as int] == self.tabs.list@[i as int]@);
                }
                redraw_if(said.as_str(), now.as_str())
            },
            Reply::Came(reply) => {
                let ghost before = self.tabs.list@;
                proof {
                    assert(before[i as int].wf());
                    assert(self@.tabs.leaves[i as int] == before[i as int]@);
                }
                let tab = &mut self.tabs.list[i];
                let stayed = navigated(tab, navigation.url.as_str(), reply);
                let now = self.tabs.list[i].line();
                proof {
                    assert(self.tabs@.leaves[i as int] == self.tabs.list@[i as int]@);
                    lemma_one_changed(before, self.tabs.list@, i as int);
                    assert(self@ =~= old(self)@.navigation_collected(Echo::Came(reply@)).0);
                }
                if stayed {
                    both(
                        Act::CurrentUrl { target: navigation.target },
                        Act::RedrawFrom { line: said },
                    )
                } else {
                    redraw_if(said.as_str(), now.as_str())
                }
            },
        }
    }

    /// A page is where its own history says it is.
    pub fn stayed(&mut self, target: &str, history: &Json)
        requires
            old(self).wf(),
        ensures
            final(self).wf(),
            final(self)@ == old(self)@.stayed_at(target@, history@),
    {
        let url = match current_url(history) {
            Some(url) => url,
            None => return,
        };
        match self.tabs.index_of(target) {
            Some(i) => {
                let ghost before = self.tabs.list@;
                proof {
                    assert(before[i as int].wf());
                    assert(self@.tabs.leaves[i as int] == before[i as int]@);
                }
                let tab = &mut self.tabs.list[i];
                tab.url = url;
                proof {
                    lemma_one_changed(before, self.tabs.list@, i as int);
                    assert(self@ =~= old(self)@.stayed_at(target@, history@));
                }
            },
            None => {},
        }
    }

    /// Walk the page in front by one entry of its own history, which was just
    /// asked for.
    pub fn go(&mut self, history: &Json, delta: i64) -> (r: Vec<Act>)
        requires
            old(self).wf(),
        ensures
            final(self).wf(),
            (final(self)@, deeds(r@)) == old(self)@.gone(history@, delta),
    {
        let target = match self.tabs.active() {
            Some(tab) => tab.target.clone(),
            None => return nothing(),
        };
        let index: i64 = match history.get("currentIndex") {
            Some(v) => match v.as_i64() {
                Some(i) => i,
                None => 0,
            },
            None => 0,
        };
        let wanted: i128 = index as i128 + delta as i128;
        match history.get("entries") {
            Some(list) => match list.as_array() {
                Some(entries) => {
                    proof {
                        lemma_list_view(*entries);
                    }
                    if 0 <= wanted && wanted < entries.len() as i128 {
                        proof {
                            assert(list@->List_0[wanted as int] == entries@[wanted as int]@);
                        }
                        return match entries[wanted as usize].get("id") {
                            Some(v) => match v.as_i64() {
                                Some(id) => {
                                    let fields = vec![("entryId", Json::number(id))];
                                    proof {
                                        assert(record_of(fields@) =~= to_entry(id)->Record_0);
                                    }
                                    just(
                                        Act::Call {
                                            target,
                                            method: "Page.navigateToHistoryEntry",
                                            params: Json::object(fields),
                                        },
                                    )
                                },
                                None => nothing(),
                            },
                            None => nothing(),
                        };
                    }
                },
                None => {},
            },
            None => {},
        }
        if delta < 0 {
            self.note("nothing to go back to".to_owned());
        } else {
            self.note("nothing to go forward to".to_owned());
        }
        nothing()
    }

    /// A page has been opened and attached to, or it has not.
    pub fn open_tab(&mut self, outcome: Result<String, String>) -> (r: Vec<Act>)
        requires
            old(self).wf(),
        ensures
            final(self).wf(),
            (final(self)@, deeds(r@)) == old(self)@.tab_opened(texts_of(outcome)),
    {
        match outcome {
            Ok(target) => {
                let was = self.tabs.active_target();
                self.tabs.open(Tab::new(target.as_str(), "about:blank"));
                self.bar = Some(UrlBar::new(Line::empty()));
                proof {
                    assert(self@ =~= old(self)@.tab_opened(texts_of(outcome)).0);
                }
                both(Act::Switched { was }, Act::Redraw)
            },
            Err(why) => {
                self.note(why);
                just(Act::Redraw)
            },
        }
    }

    /// What the page says is selected in it, or `None` for a page that did not
    /// say.
    pub fn selected(&mut self, answer: Option<&Json>) -> (r: Vec<Act>)
        requires
            old(self).wf(),
        ensures
            final(self).wf(),
            (final(self)@, deeds(r@)) == old(self)@.selection_came(
                match answer {
                    Some(reply) => Some(reply@),
                    None => None,
                },
            ),
    {
        match answer {
            Some(reply) => match selection(reply) {
                Some(text) => {
                    let chars = crate::strings::chars_of(text.as_str());
                    if chars.len() > 0 {
                        let written = self.copy_out(text.as_str(), Copied::Text);
                        return and_then_act(written, Act::Redraw);
                    }
                    self.note("nothing selected".to_owned());
                },
                None => self.note("nothing selected".to_owned()),
            },
            None => self.note("the page did not answer".to_owned()),
        }
        just(Act::Redraw)
    }

    /// The find script's world has been made in a page, or it has not.
    pub fn make_world(&mut self, target: &str, context: Option<i64>)
        requires
            old(self).wf(),
        ensures
            final(self).wf(),
            final(self)@ == old(self)@.world_made(target@, context),
    {
        let mut open: Option<Find> = None;
        std::mem::swap(&mut open, &mut self.find);
        match open {
            Some(mut find) => {
                let ghost hunt = find@;
                if same(find.target.as_str(), target) {
                    find.context = context;
                    proof {
                        assert(find@ =~= (Hunt { context, ..hunt }));
                    }
                }
                self.find = Some(find);
            },
            None => {},
        }
    }

    /// Whether the prompt searches the page in front: a tab that is no longer in
    /// front has its prompt closed when the tabs change.
    fn searches_front(&self) -> (r: bool)
        requires
            self.wf(),
        ensures
            r == self@.searches_front(),
    {
        match (&self.find, self.tabs.active()) {
            (Some(find), Some(tab)) => same(tab.target.as_str(), find.target.as_str()),
            _ => false,
        }
    }

    /// Collect the answer to a search if it has come: whether the row is to be
    /// drawn again, and whether the world is to be made again first.
    pub fn pump_find(&mut self, reply: &Reply, now: u64) -> (r: (bool, bool))
        requires
            old(self).wf(),
        ensures
            final(self).wf(),
            (final(self)@, r.0, r.1) == old(self)@.pumped(reply@, now),
    {
        if !self.searches_front() {
            return (false, false);
        }
        let stopped = crate::row::asking(&self.tabs);
        let mut open: Option<Find> = None;
        std::mem::swap(&mut open, &mut self.find);
        match open {
            Some(mut find) => {
                let pumped = find.collect(reply, stopped, now);
                self.find = Some(find);
                match pumped {
                    Pumped::Quiet => (false, false),
                    Pumped::Changed => (true, false),
                    Pumped::Note(why) => {
                        self.note(why);
                        (true, false)
                    },
                    Pumped::Remake => (false, true),
                }
            },
            None => (false, false),
        }
    }

    /// What is to be searched for next, when nothing is out.
    pub fn next_search(&self) -> (r: Next)
        requires
            self.wf(),
        ensures
            r@ == self@.search_next(),
    {
        if !self.searches_front() {
            return Next::Nothing;
        }
        match &self.find {
            Some(find) => find.next(),
            None => Next::Nothing,
        }
    }

    /// The search has been sent, or it could not be: whether the row is to be
    /// drawn again.
    pub fn search_sent(&mut self, sent: Result<i64, String>, now: u64) -> (r: bool)
        requires
            old(self).wf(),
        ensures
            final(self).wf(),
            (final(self)@, r) == old(self)@.search_sent(outcome_of(sent), now),
    {
        let mut open: Option<Find> = None;
        std::mem::swap(&mut open, &mut self.find);
        match open {
            Some(mut find) => match sent {
                Ok(ticket) => {
                    find.sent(Some(ticket), now);
                    self.find = Some(find);
                    false
                },
                Err(why) => {
                    find.sent(None, now);
                    self.find = Some(find);
                    self.note(why);
                    true
                },
            },
            None => false,
        }
    }

    /// Stop the page of a target from painting, if it is still in the list.
    fn deactivate(&self, target: &str) -> (r: Vec<Act>)
        requires
            self.wf(),
        ensures
            deeds(r@) == self@.stopping(target@),
    {
        match self.tabs.index_of(target) {
            Some(i) => {
                proof {
                    assert(self@.tabs.leaves[i as int] == self.tabs.list@[i as int]@);
                }
                let stopped = self.tabs.list[i].dialog.is_some();
                just(tell(target.to_owned(), stopped, "Page.stopScreencast", Json::empty()))
            },
            None => nothing(),
        }
    }

    /// Follow a change of which tab is in front all the way through. `was` is
    /// the target that was in front before whatever just happened; when it still
    /// is, there is nothing to do.
    pub fn switched(&mut self, was: Option<String>) -> (r: Vec<Act>)
        requires
            old(self).wf(),
        ensures
            final(self).wf(),
            (final(self)@, deeds(r@)) == old(self)@.switched(maybe(was)),
    {
        let now = self.tabs.active_target();
        let unchanged = match (&now, &was) {
            (Some(a), Some(b)) => same(a.as_str(), b.as_str()),
            (None, None) => true,
            _ => false,
        };
        if unchanged {
            return nothing();
        }
        let mut acts = just(Act::Forget);
        let mut told = self.close_find();
        let mut stop = match was {
            Some(was) => self.deactivate(was.as_str()),
            None => nothing(),
        };
        proof {
            lemma_deeds(acts@, told@);
            lemma_deeds(acts@ + told@, stop@);
        }
        acts.append(&mut told);
        acts.append(&mut stop);
        match now {
            Some(target) => {
                let acts = and_then_act(acts, Act::Write(clear_command()));
                let acts = and_then_act(acts, Act::Write(bytes_of("\x1b[2;1H\x1b[J")));
                and_then_act(acts, Act::Activate { target })
            },
            None => acts,
        }
    }

    /// A page could not be made to paint: why, on its row.
    pub fn not_activated(&mut self, why: String)
        requires
            old(self).wf(),
        ensures
            final(self).wf(),
            final(self)@ == old(self)@.noted(why@),
    {
        self.note(why);
    }
}

// ---- laws ----

/// A change of tabs that puts no other page in front does nothing at all.
pub proof fn law_an_unchanged_front_is_left_alone(desk: Desk)
    ensures
        desk.switched(desk.tabs.active_target()) == (desk, Seq::<Deed>::empty()),
{
}

/// When another page comes to the front the find prompt is closed, and its
/// needle remembered.
pub proof fn law_a_switch_closes_the_prompt(desk: Desk, was: Option<Seq<char>>)
    requires
        was != desk.tabs.active_target(),
    ensures
        desk.switched(was).0.find is None,
        desk.find matches Some(hunt) ==> desk.switched(was).0.last_needle == hunt.line.text,
{
}

/// The answer to a navigation goes to the page it was sent to or to none: when
/// another page is in front nothing on it changes.
pub proof fn law_a_failure_is_not_pinned_on_another_page(desk: Desk, voyage: Voyage, reply: Echo)
    requires
        desk.navigation == Some(voyage),
        desk.tabs.active_target() != Some(voyage.target),
    ensures
        desk.navigation_collected(reply).0.tabs == desk.tabs,
        desk.navigation_collected(reply).0.navigation is None,
{
}

/// A navigation still out when another is asked for is dropped, whether or not
/// the other could be sent: what is waited for is never the first.
pub proof fn law_a_second_navigation_drops_the_first(
    desk: Desk,
    target: Seq<char>,
    url: Seq<char>,
    sent: Result<i64, Seq<char>>,
)
    ensures
        desk.navigating(target, url, sent).navigation == match sent {
            Ok(ticket) => Some(Voyage { target, url, ticket }),
            Err(_) => None,
        },
{
}

/// What was wrong with a page is not pinned on the navigation that comes next.
pub proof fn law_a_navigation_clears_the_problem(
    desk: Desk,
    target: Seq<char>,
    url: Seq<char>,
    sent: Result<i64, Seq<char>>,
)
    ensures
        desk.navigating(target, url, sent).tabs.active() matches Some(leaf) ==> leaf.problem
            is None,
{
}

/// An answer to a navigation is taken once.
pub proof fn law_an_answer_is_taken_once(desk: Desk, reply: Echo, again: Echo)
    requires
        !(reply is Nothing),
    ensures
        desk.navigation_collected(reply).0.navigation_collected(again) == (
            desk.navigation_collected(reply).0,
            Seq::<Deed>::empty(),
        ),
{
}

/// A search that could not be sent, or that found no world, is asked no more:
/// the person types again.
pub proof fn law_a_failed_search_is_not_repeated(desk: Desk, why: Seq<char>, now: u64)
    requires
        desk.find matches Some(hunt) && hunt.pending is None,
    ensures
        desk.search_sent(Err(why), now).0.search_next() == Coming::Nothing,
{
}

/// Some deeds are one: a page is sent to the entry of its history with an id.
pub open spec fn sent_to_entry(deeds: Seq<Deed>, target: Seq<char>, id: i64) -> bool {
    &&& deeds.len() == 1
    &&& deeds[0] matches Deed::Call { target: to, method, params } && to == target && method
        == "Page.navigateToHistoryEntry"@ && field(params, "entryId"@) == Some(
        Value::Number(double_of(id as int)),
    )
}

/// The page in front, whose history stands at a place, is sent to the entry
/// that many places on; and where there is none it stays, and the row says which
/// way there was none.
pub proof fn law_a_walk_is_to_the_entry_that_many_places_on(
    desk: Desk,
    history: Value,
    entries: Seq<Value>,
    i: i64,
    delta: i64,
)
    requires
        desk.tabs.active() is Some,
        whole_of(field(history, "currentIndex"@)) == Some(i),
        field(history, "entries"@) == Some(Value::List(entries)),
    ensures
        0 <= i + delta < entries.len() ==> desk.gone(history, delta).0 == desk,
        0 <= i + delta < entries.len() ==> (whole_of(field(entries[i + delta], "id"@)) matches Some(
            id,
        ) ==> sent_to_entry(
            desk.gone(history, delta).1,
            desk.tabs.active()->Some_0.target,
            id,
        )),
        !(0 <= i + delta < entries.len()) ==> {
            &&& desk.gone(history, delta).1.len() == 0
            &&& desk.gone(history, delta).0.tabs.active() matches Some(leaf) && leaf.note == Some(
                if delta < 0 {
                    "nothing to go back to"@
                } else {
                    "nothing to go forward to"@
                },
            )
        },
{
    if 0 <= i + delta < entries.len() {
        if let Some(id) = whole_of(field(entries[i + delta], "id"@)) {
            let fields = to_entry(id)->Record_0;
            assert(fields[0].0 == "entryId"@);
            lemma_each_is_found(fields);
        }
    }
}

/// Back and then forward is where it started: the entry that forward names, once
/// the history stands one place back, is the one that back was pressed on.
pub proof fn law_forward_undoes_back(
    desk: Desk,
    here: Value,
    there: Value,
    entries: Seq<Value>,
    i: i64,
    id: i64,
)
    requires
        desk.tabs.active() is Some,
        1 <= i < entries.len(),
        whole_of(field(here, "currentIndex"@)) == Some(i),
        field(here, "entries"@) == Some(Value::List(entries)),
        whole_of(field(there, "currentIndex"@)) == Some((i - 1) as i64),
        field(there, "entries"@) == Some(Value::List(entries)),
        whole_of(field(entries[i as int], "id"@)) == Some(id),
    ensures
        sent_to_entry(desk.gone(there, 1).1, desk.tabs.active()->Some_0.target, id),
        whole_of(field(entries[i - 1], "id"@)) matches Some(before) ==> sent_to_entry(
            desk.gone(here, (-1) as i64).1,
            desk.tabs.active()->Some_0.target,
            before,
        ),
{
    law_a_walk_is_to_the_entry_that_many_places_on(desk, here, entries, i, (-1) as i64);
    law_a_walk_is_to_the_entry_that_many_places_on(desk, there, entries, (i - 1) as i64, 1);
}

/// The page is told its size, as it is and not as a telephone's, and the pictures
/// of it are asked for at that size.
pub proof fn law_a_page_is_told_its_size(width: u32, height: u32)
    ensures
        ({
            let told = sized(width, height);
            let asked = cast(width, height);
            &&& whole_of(field(told, "width"@)) == Some(width as i64)
            &&& whole_of(field(told, "height"@)) == Some(height as i64)
            &&& whole_of(field(told, "deviceScaleFactor"@)) == Some(1i64)
            &&& bool_of(field(told, "mobile"@)) == Some(false)
            &&& text_of(field(asked, "format"@)) == Some("jpeg"@)
            &&& whole_of(field(asked, "quality"@)) == Some(80i64)
            &&& whole_of(field(asked, "maxWidth"@)) == Some(width as i64)
            &&& whole_of(field(asked, "maxHeight"@)) == Some(height as i64)
            &&& whole_of(field(asked, "everyNthFrame"@)) == Some(1i64)
        }),
{
    let told = sized(width, height)->Record_0;
    let asked = cast(width, height)->Record_0;
    reveal_strlit("width");
    reveal_strlit("height");
    reveal_strlit("deviceScaleFactor");
    reveal_strlit("mobile");
    assert("width"@.len() == 5);
    assert("height"@.len() == 6);
    assert("deviceScaleFactor"@.len() == 17);
    assert("mobile"@.len() == 6);
    assert("height"@[0] != "mobile"@[0]);
    reveal_strlit("format");
    reveal_strlit("quality");
    reveal_strlit("maxWidth");
    reveal_strlit("maxHeight");
    reveal_strlit("everyNthFrame");
    assert("format"@.len() == 6);
    assert("quality"@.len() == 7);
    assert("maxWidth"@.len() == 8);
    assert("maxHeight"@.len() == 9);
    assert("everyNthFrame"@.len() == 13);
    assert(told[0].0 == "width"@ && told[1].0 == "height"@ && told[2].0 == "deviceScaleFactor"@
        && told[3].0 == "mobile"@);
    assert(asked[0].0 == "format"@ && asked[1].0 == "quality"@ && asked[2].0 == "maxWidth"@
        && asked[3].0 == "maxHeight"@ && asked[4].0 == "everyNthFrame"@);
    assert(named_once(told) && named_once(asked));
    lemma_each_is_found(told);
    lemma_each_is_found(asked);
    law_a_short_whole_number_is_exact(width as int);
    law_a_short_whole_number_is_exact(height as int);
    law_a_short_whole_number_is_exact(1);
    law_a_short_whole_number_is_exact(80);
}

/// A page that waits for an answer is told and not asked: it could not reply.
pub proof fn law_a_page_that_waits_is_told(target: Seq<char>, method: Seq<char>, params: Value)
    ensures
        put_to(target, true, method, params) == (Deed::Tell { target, method, params }),
        put_to(target, false, method, params) == (Deed::Call { target, method, params }),
{
}

/// Going somewhere sends the page in front there and says so.
pub proof fn law_going_sends_the_page_in_front(desk: Desk, leaf: Leaf, url: Seq<char>)
    requires
        desk.tabs.valid(),
        desk.tabs.active() == Some(leaf),
    ensures
        desk.begun(url).1.contains(Deed::Navigate { target: leaf.target, url: normalised(url) }),
        desk.begun(url).0.tabs.active() matches Some(now) && now.url == normalised(url)
            && now.loading && now.target == leaf.target && now.note == Some(
            "loading "@ + normalised(url),
        ),
{
    assert(desk.begun(url).1[1] is Navigate);
}

/// What became of a navigation: why it failed is said of the address that it was
/// to, one that became a download leaves the page where it was, and one that went
/// well says nothing.
pub proof fn law_a_navigation_says_what_became_of_it(
    leaf: Leaf,
    url: Seq<char>,
    reply: Value,
    code: Seq<char>,
)
    ensures
        failure_of(reply) == Some(code) ==> navigated_leaf(leaf, url, reply) == (
            leaf.turned_away(url, code),
            false,
        ),
        bool_of(field(reply, "isDownload"@)) == Some(true) && text_of(field(reply, "errorText"@))
            == Some("net::ERR_ABORTED"@) ==> navigated_leaf(leaf, url, reply) == (
            Leaf { note: None, loading: false, ..leaf },
            true,
        ),
        field(reply, "errorText"@) is None ==> navigated_leaf(leaf, url, reply) == (leaf, false),
{
}

/// The answer to a navigation is of the page that was sent, and is taken as what
/// became of it.
pub proof fn law_the_answer_is_of_the_page_that_was_sent(
    desk: Desk,
    leaf: Leaf,
    voyage: Voyage,
    reply: Value,
    why: Seq<char>,
)
    requires
        desk.tabs.valid(),
        desk.navigation == Some(voyage),
        desk.tabs.active() == Some(leaf),
        leaf.target == voyage.target,
    ensures
        desk.navigation_collected(Echo::Came(reply)).0.tabs.active() == Some(
            navigated_leaf(leaf, voyage.url, reply).0,
        ),
        desk.navigation_collected(Echo::Refused(why)).0.tabs.active() matches Some(now) && now.note
            == Some(why),
        desk.navigation_collected(Echo::Nothing) == (desk, Seq::<Deed>::empty()),
        navigated_leaf(leaf, voyage.url, reply).1 ==> desk.navigation_collected(
            Echo::Came(reply),
        ).1.contains(Deed::CurrentUrl { target: leaf.target }),
        desk.navigation_collected(Echo::Came(reply)).0.navigation is None,
{
    if navigated_leaf(leaf, voyage.url, reply).1 {
        assert(desk.navigation_collected(Echo::Came(reply)).1[0] is CurrentUrl);
    }
}

/// A page that stayed is where its history says, whichever tab it is.
pub proof fn law_a_page_that_stayed_is_where_its_history_says(
    desk: Desk,
    i: int,
    history: Value,
    url: Seq<char>,
)
    requires
        0 <= i < desk.tabs.leaves.len(),
        desk.tabs.place(desk.tabs.leaves[i].target) == i,
        url_in_history(history) == Some(url),
    ensures
        ({
            let after = desk.stayed_at(desk.tabs.leaves[i].target, history).tabs;
            &&& after.leaves.len() == desk.tabs.leaves.len()
            &&& after.leaves[i] == Leaf { url, ..desk.tabs.leaves[i] }
            &&& forall|k: int|
                0 <= k < after.leaves.len() && k != i ==> after.leaves[k] == desk.tabs.leaves[k]
            &&& after.front == desk.tabs.front
        }),
{
}

/// A tab that the engine opened comes to the front, empty, with the address bar
/// open for it; one that it did not is said, and nothing else changes.
pub proof fn law_a_new_tab_asks_for_its_address(desk: Desk, target: Seq<char>, why: Seq<char>)
    requires
        desk.tabs.valid(),
    ensures
        ({
            let (after, acts) = desk.tab_opened(Ok(target));
            &&& after.tabs.active() matches Some(leaf) && leaf.target == target && leaf.url
                == "about:blank"@ && leaf.title.len() == 0
            &&& after.tabs.leaves.drop_last() == desk.tabs.leaves
            &&& after.bar matches Some(bar) && bar.line.text.len() == 0 && bar.walk is None
            &&& acts.contains(Deed::Switched { was: desk.tabs.active_target() })
        }),
        desk.tab_opened(Err(why)).0 == desk.noted(why),
{
    let (after, acts) = desk.tab_opened(Ok(target));
    assert(after.tabs.leaves.drop_last() =~= desk.tabs.leaves);
    assert(acts[0] is Switched);
}

/// What is selected on the page is copied, all of it; a page with nothing selected
/// and one that does not answer are told apart.
pub proof fn law_what_is_selected_is_copied(desk: Desk, leaf: Leaf, reply: Value)
    requires
        desk.tabs.valid(),
        desk.tabs.active() == Some(leaf),
    ensures
        text_of(field2(reply, "result"@, "value"@)) matches Some(text) ==> text.len() > 0
            ==> desk.selection_came(Some(reply)).0 == desk.copied_out(text, Copied::Text).0
            && desk.selection_came(Some(reply)).1.drop_last() == desk.copied_out(
            text,
            Copied::Text,
        ).1,
        text_of(field2(reply, "result"@, "value"@)) is None ==> desk.selection_came(
            Some(reply),
        ).0.tabs.active()->Some_0.note == Some("nothing selected"@),
        desk.selection_came(None).0.tabs.active()->Some_0.note == Some("the page did not answer"@),
{
    if text_of(field2(reply, "result"@, "value"@)) is Some {
        let text = text_of(field2(reply, "result"@, "value"@))->Some_0;
        if text.len() > 0 {
            assert(desk.selection_came(Some(reply)).1.drop_last() =~= desk.copied_out(
                text,
                Copied::Text,
            ).1);
        }
    }
}

/// When another page comes to the front, the one that was there stops sending
/// pictures, the pane is cleared, and the one that came is shown.
pub proof fn law_a_switch_stops_one_page_and_shows_the_other(
    desk: Desk,
    i: int,
    target: Seq<char>,
)
    requires
        0 <= i < desk.tabs.leaves.len(),
        desk.tabs.place(desk.tabs.leaves[i].target) == i,
        desk.tabs.active_target() == Some(target),
        target != desk.tabs.leaves[i].target,
    ensures
        ({
            let was = desk.tabs.leaves[i];
            let acts = desk.switched(Some(was.target)).1;
            let stop = put_to(
                was.target,
                was.dialog is Some,
                "Page.stopScreencast"@,
                Value::Record(Seq::empty()),
            );
            &&& acts[0] == Deed::Forget
            &&& acts.contains(stop)
            &&& acts.last() == Deed::Activate { target }
            &&& acts.contains(Deed::Write(clear_bytes()))
        }),
{
    let was = desk.tabs.leaves[i];
    let acts = desk.switched(Some(was.target)).1;
    let told = desk.find_closed().1;
    let n = told.len() as int;
    assert(acts[n + 1] == put_to(
        was.target,
        was.dialog is Some,
        "Page.stopScreencast"@,
        Value::Record(Seq::empty()),
    ));
    assert(acts[n + 2] == Deed::Write(clear_bytes()));
}

/// The search is of the page in front, with the world that was made for it.
pub proof fn law_a_world_is_for_the_page_it_was_made_for(
    desk: Desk,
    hunt: Hunt,
    target: Seq<char>,
    context: Option<i64>,
)
    requires
        desk.find == Some(hunt),
    ensures
        hunt.target == target ==> desk.world_made(target, context).find == Some(
            Hunt { context, ..hunt },
        ),
        hunt.target != target ==> desk.world_made(target, context) == desk,
        desk.tabs.active_target() != Some(hunt.target) ==> desk.search_next() is Nothing,
        desk.tabs.active_target() == Some(hunt.target) ==> desk.search_next() == hunt.next(),
{
}

/// What came of the search is the search's, on the page that is in front; what it
/// could not do is said.
pub proof fn law_what_came_of_a_search_is_shown(desk: Desk, hunt: Hunt, leaf: Leaf, reply: Echo, now: u64)
    requires
        desk.tabs.valid(),
        desk.find == Some(hunt),
        desk.tabs.active() == Some(leaf),
        leaf.target == hunt.target,
    ensures
        ({
            let (next, drawn) = hunt.collected(reply, leaf.dialog is Some, now);
            let (after, changed, remake) = desk.pumped(reply, now);
            &&& after.find == Some(next)
            &&& changed <==> drawn is Changed || drawn is Note
            &&& remake <==> drawn is Remake
            &&& drawn matches Drawn::Note(why) ==> after.tabs.active() matches Some(leaf)
                && leaf.note == Some(why)
        }),
{
}

}
