//! What the pages and the engine say of themselves between two keys.
//!
//! Every tab is heard and not only the one in front, because a page behind is
//! still running: it loads, renames itself and can open a dialog that stops it.
//! What a page behind does not do is paint, so a frame of one is acknowledged,
//! so that it is not left waiting, and thrown away.
use vstd::prelude::*;

use crate::app::{both, deeds, nothing, Act, Browser, Deed, Desk};
use crate::cdp::{Event, News};
use crate::dialog::{question, Kind};
use crate::double::{double_of, Double};
use crate::history::{after_visit, line_of, page_visited, recordable, Page};
use crate::json::{
    bool_of, field, field2, lemma_each_is_found, record_of, text_of, whole_of, Json, Value,
};
use crate::load::{arrival_of, landing, Loaded, Report};
use crate::strings::same;
use crate::tabs::{law_closing_a_tab_behind_leaves_the_one_in_front, leaves, Leaf, Strip, Tab};
use crate::upload::{maybe, offer_of};

verus! {

// ---- one page ----

/// Something an event of a page asks for.
#[derive(Debug, PartialEq, Eq)]
pub enum PageAct {
    /// Acknowledge a frame: the engine sends no more until it has been.
    Ack { session: i64 },
    /// A frame of the page in front, still encoded, and when it was painted.
    Frame { data: String, stamp: Option<Double> },
}

/// What a [`PageAct`] is.
pub enum PageDeed {
    Ack { session: i64 },
    Frame { data: Seq<char>, stamp: Option<Double> },
}

impl View for PageAct {
    type V = PageDeed;

    open spec fn view(&self) -> PageDeed {
        match *self {
            PageAct::Ack { session } => PageDeed::Ack { session },
            PageAct::Frame { data, stamp } => PageDeed::Frame { data: data@, stamp },
        }
    }
}

/// What the events of a page came to.
#[derive(Debug, PartialEq, Eq)]
pub struct Seen {
    /// What they ask for, in order.
    pub acts: Vec<PageAct>,
    /// Whether the row is to be drawn again.
    pub redraw: bool,
    /// Whether the page is to be asked what it calls itself.
    pub ask_title: bool,
    /// Whether the page the find prompt was searching has gone to another.
    pub find_left: bool,
    /// Whether the engine's own history is to be asked where the page is,
    /// before any more of them are read.
    pub ask_url: bool,
}

/// What a [`Seen`] is.
#[verifier::ext_equal]
pub struct Sight {
    pub acts: Seq<PageDeed>,
    pub redraw: bool,
    pub ask_title: bool,
    pub find_left: bool,
    pub ask_url: bool,
}

/// What some acts are.
pub open spec fn page_deeds(acts: Seq<PageAct>) -> Seq<PageDeed> {
    acts.map_values(|a: PageAct| a@)
}

impl View for Seen {
    type V = Sight;

    open spec fn view(&self) -> Sight {
        Sight {
            acts: page_deeds(self.acts@),
            redraw: self.redraw,
            ask_title: self.ask_title,
            find_left: self.find_left,
            ask_url: self.ask_url,
        }
    }
}

/// How a page stands while its events are read.
pub struct Standing {
    /// It is in front.
    pub in_front: bool,
    /// The find prompt is searching it.
    pub searched: bool,
    /// Where a path typed for its file input starts, and what a tilde is.
    pub base: Seq<char>,
    pub home: Option<Seq<char>>,
}

/// The number a value is, when it is one.
pub open spec fn double_in(v: Option<Value>) -> Option<Double> {
    match v {
        Some(Value::Number(n)) => Some(n),
        _ => None,
    }
}

/// Nothing seen yet.
pub open spec fn unseen() -> Sight {
    Sight {
        acts: Seq::empty(),
        redraw: false,
        ask_title: false,
        find_left: false,
        ask_url: false,
    }
}

/// A frame: acknowledged, and handed on when the page is in front.
pub open spec fn frame_seen(sight: Sight, params: Value, in_front: bool) -> Sight {
    let acked = match whole_of(field(params, "sessionId"@)) {
        Some(session) => sight.acts.push(PageDeed::Ack { session }),
        None => sight.acts,
    };
    Sight {
        acts: match text_of(field(params, "data"@)) {
            Some(data) => if in_front {
                acked.push(
                    PageDeed::Frame {
                        data,
                        stamp: double_in(field2(params, "metadata"@, "timestamp"@)),
                    },
                )
            } else {
                acked
            },
            None => acked,
        },
        ..sight
    }
}

/// A dialog that opened or closed. One that closed on a page which asked to be
/// left, and was told no, leaves the page where it was; and a script that
/// carries on after its dialog often renames the page.
pub open spec fn dialog_seen(leaf: Leaf, sight: Sight, event: News) -> (Leaf, Sight) {
    let closed = event.method == "Page.javascriptDialogClosed"@;
    let stay = closed && bool_of(field(event.params, "result"@)) == Some(false) && (
    leaf.dialog matches Some(q) && q.kind == Kind::BeforeUnload);
    let (after, changed) = leaf.dialog_news(event);
    (
        if stay {
            Leaf { note: None, loading: false, ..after }
        } else {
            after
        },
        Sight {
            redraw: sight.redraw || changed || closed,
            ask_title: sight.ask_title || closed,
            ask_url: stay,
            ..sight
        },
    )
}

/// One event of a page: the page after it, and what has been seen by then.
pub open spec fn seen_one(leaf: Leaf, sight: Sight, event: News, at: Standing) -> (Leaf, Sight) {
    if event.method == "Page.screencastFrame"@ {
        (leaf, frame_seen(sight, event.params, at.in_front))
    } else if event.method == "Page.frameNavigated"@ {
        match arrival_of(event.params) {
            Some(arrival) => (
                leaf.landed(arrival),
                Sight { redraw: true, find_left: sight.find_left || at.searched, ..sight },
            ),
            None => (leaf, sight),
        }
    } else if event.method == "Page.loadEventFired"@ {
        (
            Leaf { loading: false, ..leaf },
            Sight { ask_title: true, redraw: true, ..sight },
        )
    } else if event.method == "Page.javascriptDialogOpening"@ || event.method
        == "Page.javascriptDialogClosed"@ {
        dialog_seen(leaf, sight, event)
    } else if event.method == "Page.fileChooserOpened"@ {
        let (after, changed) = leaf.chooser_news(event, at.base, at.home);
        (after, Sight { redraw: sight.redraw || changed, ..sight })
    } else {
        (leaf, sight)
    }
}

/// The events of a page from one of them on, in order, up to one after which
/// the engine is to be asked where the page is: the page after them, what has
/// been seen by then, and how many have been read.
pub open spec fn seen_from(
    leaf: Leaf,
    sight: Sight,
    events: Seq<News>,
    from: int,
    at: Standing,
) -> (Leaf, Sight, int)
    decreases events.len() - from,
{
    if from >= events.len() || from < 0 || sight.ask_url {
        (leaf, sight, from)
    } else {
        let (after, more) = seen_one(leaf, sight, events[from], at);
        seen_from(after, more, events, from + 1, at)
    }
}

/// What some events are.
pub open spec fn news_of(events: Seq<Event>) -> Seq<News> {
    events.map_values(|e: Event| e@)
}

/// What an optional text is.
pub open spec fn text_maybe(s: Option<&str>) -> Option<Seq<char>> {
    match s {
        Some(s) => Some(s@),
        None => None,
    }
}

/// Add something to what the events ask for.
fn push_act(acts: &mut Vec<PageAct>, act: PageAct)
    ensures
        page_deeds(final(acts)@) == page_deeds(old(acts)@).push(act@),
{
    acts.push(act);
    proof {
        assert(page_deeds(acts@) =~= page_deeds(old(acts)@).push(act@));
    }
}

/// A frame of a page.
fn frame_event(seen: &mut Seen, params: &Json, in_front: bool)
    ensures
        final(seen)@ == frame_seen(old(seen)@, params@, in_front),
{
    match params.get("sessionId") {
        Some(v) => match v.as_i64() {
            Some(session) => push_act(&mut seen.acts, PageAct::Ack { session }),
            None => {},
        },
        None => {},
    }
    if !in_front {
        return;
    }
    match params.text_at("data") {
        Some(data) => {
            let stamp = match params.get2("metadata", "timestamp") {
                Some(v) => match v {
                    Json::Number(n) => Some(*n),
                    _ => None,
                },
                None => None,
            };
            push_act(&mut seen.acts, PageAct::Frame { data: data.to_owned(), stamp });
        },
        None => {},
    }
}

/// One event of a page.
fn page_event(
    tab: &mut Tab,
    seen: &mut Seen,
    event: &Event,
    in_front: bool,
    searched: bool,
    base: &str,
    home: Option<&str>,
)
    requires
        old(tab).wf(),
    ensures
        final(tab).wf(),
        (final(tab)@, final(seen)@) == seen_one(
            old(tab)@,
            old(seen)@,
            event@,
            Standing { in_front, searched, base: base@, home: text_maybe(home) },
        ),
{
    let method = event.method.as_str();
    if same(method, "Page.screencastFrame") {
        frame_event(seen, &event.params, in_front);
    } else if same(method, "Page.frameNavigated") {
        match landing(&event.params) {
            Some(at) => {
                tab.landed(at);
                seen.redraw = true;
                seen.find_left = seen.find_left || searched;
            },
            None => {},
        }
    } else if same(method, "Page.loadEventFired") {
        tab.loading = false;
        seen.ask_title = true;
        seen.redraw = true;
        proof {
            assert(tab@ =~= (Leaf { loading: false, ..old(tab)@ }));
        }
    } else if same(method, "Page.javascriptDialogOpening") || same(
        method,
        "Page.javascriptDialogClosed",
    ) {
        let closed = same(method, "Page.javascriptDialogClosed");
        let refused = match event.params.get("result") {
            Some(v) => match v.as_bool() {
                Some(b) => !b,
                None => false,
            },
            None => false,
        };
        let leaving = match &tab.dialog {
            Some(dialog) => dialog.kind == Kind::BeforeUnload,
            None => false,
        };
        let stay = closed && refused && leaving;
        let ghost before = tab@;
        let changed = tab.dialog_event(event);
        seen.redraw = seen.redraw || changed || closed;
        seen.ask_title = seen.ask_title || closed;
        if stay {
            let ghost between = tab@;
            tab.note = None;
            tab.loading = false;
            proof {
                assert(tab@ =~= (Leaf { note: None, loading: false, ..between }));
            }
        }
        seen.ask_url = stay;
        proof {
            assert((tab@, seen@) == dialog_seen(before, old(seen)@, event@));
        }
    } else if same(method, "Page.fileChooserOpened") {
        let changed = tab.chooser_event(event, base, home);
        seen.redraw = seen.redraw || changed;
    }
}

/// The events that a queue is binned for keep what they say of a dialog or a
/// file input: the page opened it, and waits on it, however long ago that was.
pub open spec fn binned(leaf: Leaf, events: Seq<News>, base: Seq<char>, home: Option<Seq<char>>) -> Leaf
    decreases events.len(),
{
    if events.len() == 0 {
        leaf
    } else {
        let before = binned(leaf, events.drop_last(), base, home);
        before.dialog_news(events.last()).0.chooser_news(events.last(), base, home).0
    }
}

/// `Page.screencastFrameAck` parameters.
pub open spec fn ack_of(session: i64) -> Value {
    Value::Record(
        seq![("sessionId"@, Value::Number(double_of(session as int)))],
    )
}

/// `Page.screencastFrameAck` parameters.
pub fn ack_params(session: i64) -> (r: Json)
    ensures
        r@ == ack_of(session),
{
    let fields = vec![("sessionId", Json::number(session))];
    proof {
        assert(record_of(fields@) =~= ack_of(session)->Record_0);
    }
    Json::object(fields)
}

// ---- the tabs that have gone ----

/// The tabs without those whose session has ended, of the first `n`.
pub open spec fn reaped(tabs: Strip, ended: Seq<bool>, n: int) -> Strip
    decreases n,
{
    if n <= 0 {
        tabs
    } else if ended[n - 1] {
        reaped(tabs.closed(n - 1), ended, n - 1)
    } else {
        reaped(tabs, ended, n - 1)
    }
}

impl Desk {
    /// The events of one page from one of them on, with what has been seen of
    /// those before: up to one after which the engine is to be asked where the
    /// page is, and how many have been read by then.
    pub open spec fn page_heard(
        self,
        i: int,
        events: Seq<News>,
        from: int,
        sight: Sight,
        base: Seq<char>,
        home: Option<Seq<char>>,
    ) -> (Desk, Sight, int) {
        let leaf = self.tabs.leaves[i];
        let (after, sight, read) = seen_from(
            leaf,
            Sight { acts: Seq::empty(), ask_url: false, ..sight },
            events,
            from,
            Standing {
                in_front: i == self.tabs.front,
                searched: self.find matches Some(hunt) && hunt.target == leaf.target,
                base,
                home,
            },
        );
        (
            Desk {
                tabs: Strip { leaves: self.tabs.leaves.update(i, after), ..self.tabs },
                ..self
            },
            Sight {
                ask_title: sight.ask_title && (read < events.len() || after.dialog is None),
                ..sight
            },
            read,
        )
    }

    /// A page has said what it calls itself, which is a visit unless the page
    /// did not come: the one moment its final url and its title are both known.
    pub open spec fn page_named(self, i: int, report: Report, now: u64) -> Desk {
        let after = self.tabs.leaves[i].after_load(report);
        Desk {
            tabs: Strip { leaves: self.tabs.leaves.update(i, after), ..self.tabs },
            visited: if after.problem is None {
                after_visit(self.visited, after.url, after.title, now)
            } else {
                self.visited
            },
            ..self
        }
    }

    /// The tabs whose session has ended are gone, and another may be in front.
    pub open spec fn without_dead(self, ended: Seq<bool>) -> (Desk, Seq<Deed>) {
        let tabs = reaped(self.tabs, ended, ended.len() as int);
        (
            Desk { tabs, ..self },
            if tabs.leaves.len() == 0 || tabs.leaves.len() == self.tabs.leaves.len() {
                Seq::empty()
            } else {
                seq![Deed::Switched { was: self.tabs.active_target() }, Deed::Redraw]
            },
        )
    }
}

/// Reaping closes no more tabs than have ended, and leaves the tabs valid.
proof fn lemma_reaped(tabs: Strip, ended: Seq<bool>, n: int)
    requires
        0 <= n <= ended.len(),
        n <= tabs.leaves.len(),
        tabs.valid(),
    ensures
        reaped(tabs, ended, n).valid(),
        reaped(tabs, ended, n).leaves.len() <= tabs.leaves.len(),
        reaped(tabs, ended, n).leaves.len() == tabs.leaves.len() ==> reaped(tabs, ended, n) == tabs,
    decreases n,
{
    if n > 0 {
        if ended[n - 1] {
            lemma_reaped(tabs.closed(n - 1), ended, n - 1);
        } else {
            lemma_reaped(tabs, ended, n - 1);
        }
    }
}

impl Seen {
    /// Nothing seen yet.
    pub fn new() -> (r: Seen)
        ensures
            r@ == unseen(),
    {
        let r = Seen {
            acts: Vec::new(),
            redraw: false,
            ask_title: false,
            find_left: false,
            ask_url: false,
        };
        proof {
            assert(r@ =~= unseen());
        }
        r
    }
}

impl Browser {
    /// Read the events of one page from one of them on, up to one after which
    /// the engine is to be asked where the page is: what they came to, with what
    /// those before did, and how many have been read by then.
    pub fn page_events(
        &mut self,
        i: usize,
        events: &Vec<Event>,
        from: usize,
        before: Seen,
        base: &str,
        home: Option<&str>,
    ) -> (r: (Seen, usize))
        requires
            old(self).wf(),
            i < old(self)@.tabs.leaves.len(),
            from <= events@.len(),
        ensures
            final(self).wf(),
            (final(self)@, r.0@, r.1 as int) == old(self)@.page_heard(
                i as int,
                news_of(events@),
                from as int,
                before@,
                base@,
                text_maybe(home),
            ),
            from <= r.1 <= events@.len(),
            from < events@.len() ==> from < r.1,
            r.1 < events@.len() ==> r.0.ask_url,
    {
        proof {
            assert(self@.tabs.leaves[i as int] == self.tabs.list@[i as int]@);
            assert(self.tabs.list@[i as int].wf());
        }
        let in_front = i == self.tabs.front;
        let searched = match &self.find {
            Some(find) => same(find.target.as_str(), self.tabs.list[i].target.as_str()),
            None => false,
        };
        let ghost at = Standing { in_front, searched, base: base@, home: text_maybe(home) };
        let ghost all = news_of(events@);
        let ghost leaf = self@.tabs.leaves[i as int];
        let ghost list = self.tabs.list@;
        let mut tab = Tab::new("", "");
        std::mem::swap(&mut tab, &mut self.tabs.list[i]);
        let mut seen = Seen {
            acts: Vec::new(),
            redraw: before.redraw,
            ask_title: before.ask_title,
            find_left: before.find_left,
            ask_url: false,
        };
        let ghost start = Sight { acts: Seq::empty(), ask_url: false, ..before@ };
        let mut k: usize = from;
        proof {
            assert(seen@ =~= start);
        }
        while k < events.len() && !seen.ask_url
            invariant
                from <= k <= events@.len(),
                seen.ask_url ==> from < k,
                all == news_of(events@),
                tab.wf(),
                at == (Standing { in_front, searched, base: base@, home: text_maybe(home) }),
                seen_from(leaf, start, all, from as int, at) == seen_from(
                    tab@,
                    seen@,
                    all,
                    k as int,
                    at,
                ),
            decreases events@.len() - k,
        {
            page_event(&mut tab, &mut seen, &events[k], in_front, searched, base, home);
            proof {
                assert(all[k as int] == events@[k as int]@);
            }
            k += 1;
        }
        proof {
            assert(self.tabs.wf()) by {
                assert forall|j: int| 0 <= j < self.tabs.list@.len() implies (
                #[trigger] self.tabs.list@[j]).wf() by {
                    if j != i {
                        assert(list[j].wf());
                    }
                }
            }
            assert(self.tabs@.leaves.update(i as int, tab@) =~= leaves(list).update(
                i as int,
                tab@,
            ));
        }
        seen.ask_title = seen.ask_title && (k < events.len() || tab.dialog.is_none());
        self.tabs.put(i, tab);
        proof {
            assert(self@ =~= old(self)@.page_heard(
                i as int,
                all,
                from as int,
                before@,
                base@,
                text_maybe(home),
            ).0);
        }
        (seen, k)
    }

    /// Throw away what a page has queued, except what it says of a dialog or a
    /// file input.
    pub fn bin_events(&mut self, i: usize, events: &Vec<Event>, base: &str, home: Option<&str>)
        requires
            old(self).wf(),
            i < old(self)@.tabs.leaves.len(),
        ensures
            final(self).wf(),
            final(self)@ == (Desk {
                tabs: Strip {
                    leaves: old(self)@.tabs.leaves.update(
                        i as int,
                        binned(
                            old(self)@.tabs.leaves[i as int],
                            news_of(events@),
                            base@,
                            text_maybe(home),
                        ),
                    ),
                    ..old(self)@.tabs
                },
                ..old(self)@
            }),
    {
        proof {
            assert(self@.tabs.leaves[i as int] == self.tabs.list@[i as int]@);
            assert(self.tabs.list@[i as int].wf());
        }
        let ghost all = news_of(events@);
        let ghost leaf = self@.tabs.leaves[i as int];
        let ghost before = self.tabs.list@;
        let mut tab = Tab::new("", "");
        std::mem::swap(&mut tab, &mut self.tabs.list[i]);
        let mut k: usize = 0;
        proof {
            assert(all.take(0) =~= Seq::<News>::empty());
        }
        while k < events.len()
            invariant
                k <= events@.len(),
                all == news_of(events@),
                tab.wf(),
                tab@ == binned(leaf, all.take(k as int), base@, text_maybe(home)),
            decreases events@.len() - k,
        {
            let _ = tab.dialog_event(&events[k]);
            let _ = tab.chooser_event(&events[k], base, home);
            k += 1;
            proof {
                assert(all.take(k as int).drop_last() =~= all.take(k - 1));
                assert(all.take(k as int).last() == events@[k - 1]@);
            }
        }
        proof {
            assert(all.take(k as int) =~= all);
            assert(self.tabs.wf()) by {
                assert forall|j: int| 0 <= j < self.tabs.list@.len() implies (
                #[trigger] self.tabs.list@[j]).wf() by {
                    if j != i {
                        assert(before[j].wf());
                    }
                }
            }
            assert(self.tabs@.leaves.update(i as int, tab@) =~= leaves(before).update(
                i as int,
                tab@,
            ));
        }
        self.tabs.put(i, tab);
    }

    /// A page has said what it calls itself. A page that came is a visit, and
    /// what comes back is the line to add to the history's log, if there is one.
    pub fn page_named(&mut self, i: usize, report: Loaded, now: u64) -> (r: Option<String>)
        requires
            old(self).wf(),
            i < old(self)@.tabs.leaves.len(),
        ensures
            final(self).wf(),
            final(self)@ == old(self)@.page_named(i as int, report@, now),
            ({
                let after = old(self)@.tabs.leaves[i as int].after_load(report@);
                match r {
                    Some(line) => after.problem is None && recordable(after.url) && old(
                        self,
                    )@.log is Some && line@ == line_of(
                        page_visited(old(self)@.visited, after.url, after.title, now),
                    ).push('\n'),
                    None => after.problem is Some || !recordable(after.url) || old(
                        self,
                    )@.log is None,
                }
            }),
    {
        proof {
            assert(self@.tabs.leaves[i as int] == self.tabs.list@[i as int]@);
            assert(self.tabs.list@[i as int].wf());
        }
        let ghost before = self.tabs.list@;
        let tab = &mut self.tabs.list[i];
        tab.loaded(report);
        proof {
            crate::tabs::lemma_one_changed(before, self.tabs.list@, i as int);
        }
        if self.tabs.list[i].problem.is_some() {
            proof {
                assert(self@ =~= old(self)@.page_named(i as int, report@, now));
            }
            return None;
        }
        let r = self.history.visited(
            self.tabs.list[i].url.as_str(),
            self.tabs.list[i].title.as_str(),
            now,
        );
        proof {
            assert(self@ =~= old(self)@.page_named(i as int, report@, now));
        }
        r
    }

    /// Drop the tabs whose session has ended.
    pub fn reap_dead_tabs(&mut self, ended: &Vec<bool>) -> (r: Vec<Act>)
        requires
            old(self).wf(),
            ended@.len() == old(self)@.tabs.leaves.len(),
        ensures
            final(self).wf(),
            (final(self)@, deeds(r@)) == old(self)@.without_dead(ended@),
    {
        let was = self.tabs.active_target();
        let many = self.tabs.len();
        let mut n: usize = ended.len();
        proof {
            lemma_reaped(self@.tabs, ended@, n as int);
        }
        while n > 0
            invariant
                n <= ended@.len(),
                n <= self@.tabs.leaves.len(),
                self.wf(),
                self@ == (Desk { tabs: self@.tabs, ..old(self)@ }),
                reaped(self@.tabs, ended@, n as int) == reaped(
                    old(self)@.tabs,
                    ended@,
                    ended@.len() as int,
                ),
            decreases n,
        {
            n -= 1;
            if ended[n] {
                let _ = self.tabs.close(n);
            }
        }
        if self.tabs.len() == 0 || self.tabs.len() == many {
            nothing()
        } else {
            both(Act::Switched { was }, Act::Redraw)
        }
    }
}

// ---- which pages there are ----

/// What the events on the browser's own connection came to so far.
#[derive(Debug, PartialEq, Eq)]
pub struct Tidings {
    /// Whether the row is to be drawn again.
    pub redraw: bool,
    /// A sentence for the row of the page in front.
    pub note: Option<String>,
}

/// What [`Tidings`] are.
#[verifier::ext_equal]
pub struct Tale {
    pub redraw: bool,
    pub note: Option<Seq<char>>,
}

impl View for Tidings {
    type V = Tale;

    open spec fn view(&self) -> Tale {
        Tale { redraw: self.redraw, note: maybe(self.note) }
    }
}

/// How the program is over, when it is.
#[derive(Debug, PartialEq, Eq)]
pub enum Ending {
    /// It goes on.
    Goes,
    /// The last page closed itself.
    Clean,
    /// The last page died, and this is why.
    Sorry(String),
}

/// What an [`Ending`] is.
pub enum Finish {
    Goes,
    Clean,
    Sorry(Seq<char>),
}

impl View for Ending {
    type V = Finish;

    open spec fn view(&self) -> Finish {
        match *self {
            Ending::Goes => Finish::Goes,
            Ending::Clean => Finish::Clean,
            Ending::Sorry(why) => Finish::Sorry(why@),
        }
    }
}

impl Tidings {
    /// Nothing heard yet.
    pub fn new() -> (r: Tidings)
        ensures
            r@ == (Tale { redraw: false, note: None }),
    {
        Tidings { redraw: false, note: None }
    }

    /// A tab was opened, renamed, or a download changed.
    pub fn changed(&mut self)
        ensures
            final(self)@ == (Tale { redraw: true, ..old(self)@ }),
    {
        self.redraw = true;
    }

    /// A tab has gone, with a sentence when there is one: the first one heard
    /// stands.
    pub fn gone(&mut self, why: Option<String>)
        ensures
            final(self)@ == (Tale {
                redraw: true,
                note: match old(self)@.note {
                    Some(note) => Some(note),
                    None => maybe(why),
                },
            }),
    {
        self.redraw = true;
        if self.note.is_none() {
            self.note = why;
        }
    }

    /// A page could not be attached to: its sentence replaces any other.
    pub fn failed(&mut self, why: String)
        ensures
            final(self)@ == (Tale { redraw: true, note: Some(why@) }),
    {
        self.redraw = true;
        self.note = Some(why);
    }
}

impl Desk {
    /// What follows the events on the browser's own connection. With no tab left
    /// the program is over: cleanly when the page closed itself, and with why
    /// when it died.
    pub open spec fn settled(self, was: Option<Seq<char>>, tale: Tale) -> (Desk, Seq<Deed>, Finish) {
        if self.tabs.leaves.len() == 0 {
            (
                self,
                Seq::empty(),
                match tale.note {
                    Some(why) => Finish::Sorry(why),
                    None => Finish::Clean,
                },
            )
        } else {
            (
                match tale.note {
                    Some(note) => self.noted(note),
                    None => self,
                },
                if tale.redraw {
                    seq![Deed::Switched { was }, Deed::Redraw]
                } else {
                    seq![Deed::Switched { was }]
                },
                Finish::Goes,
            )
        }
    }
}

impl Browser {
    /// What follows the events on the browser's own connection, where `was` was
    /// in front before them.
    pub fn settle(&mut self, was: Option<String>, tidings: Tidings) -> (r: (Vec<Act>, Ending))
        requires
            old(self).wf(),
        ensures
            final(self).wf(),
            (final(self)@, deeds(r.0@), r.1@) == old(self)@.settled(maybe(was), tidings@),
    {
        if self.tabs.is_empty() {
            return match tidings.note {
                Some(why) => (nothing(), Ending::Sorry(why)),
                None => (nothing(), Ending::Clean),
            };
        }
        match tidings.note {
            Some(note) => self.note(note),
            None => {},
        }
        if tidings.redraw {
            (both(Act::Switched { was }, Act::Redraw), Ending::Goes)
        } else {
            (crate::app::just(Act::Switched { was }), Ending::Goes)
        }
    }
}

// ---- laws ----

/// Every frame that names its session is acknowledged, of a page in front or
/// behind, and only a page in front is painted.
pub proof fn law_every_frame_is_acknowledged(sight: Sight, params: Value, in_front: bool)
    ensures
        whole_of(field(params, "sessionId"@)) matches Some(session) ==> frame_seen(
            sight,
            params,
            in_front,
        ).acts[sight.acts.len() as int] == (PageDeed::Ack { session }),
        !in_front ==> frame_seen(sight, params, in_front).acts.len() <= sight.acts.len() + 1,
{
}

/// A page stopped behind a dialog is not asked what it calls itself.
pub proof fn law_a_stopped_page_is_not_asked(
    desk: Desk,
    i: int,
    events: Seq<News>,
    from: int,
    sight: Sight,
    base: Seq<char>,
    home: Option<Seq<char>>,
)
    requires
        0 <= i < desk.tabs.leaves.len(),
        desk.page_heard(i, events, from, sight, base, home).2 >= events.len(),
        desk.page_heard(i, events, from, sight, base, home).0.tabs.leaves[i].dialog is Some,
    ensures
        !desk.page_heard(i, events, from, sight, base, home).1.ask_title,
{
}

/// A page that was refused its leave is where the engine says it is when that
/// is read, and where it lands after that is its own to say: nothing behind the
/// refusal has been read when the engine is asked.
pub proof fn law_a_refused_leave_is_asked_about_at_once(
    leaf: Leaf,
    sight: Sight,
    events: Seq<News>,
    from: int,
    at: Standing,
)
    requires
        0 <= from < events.len(),
        !sight.ask_url,
        seen_one(leaf, sight, events[from], at).1.ask_url,
    ensures
        seen_from(leaf, sight, events, from, at) == ({
            let (after, more) = seen_one(leaf, sight, events[from], at);
            (after, more, from + 1)
        }),
{
    reveal_with_fuel(seen_from, 2);
}

/// A binned queue loses no question: when the last event of a queue opens a
/// dialog, the dialog is there.
pub proof fn law_a_binned_dialog_is_kept(
    leaf: Leaf,
    events: Seq<News>,
    opening: News,
    base: Seq<char>,
    home: Option<Seq<char>>,
)
    requires
        opening.method == "Page.javascriptDialogOpening"@,
        crate::dialog::question(opening.params) is Some,
    ensures
        binned(leaf, events.push(opening), base, home).dialog == crate::dialog::question(
            opening.params,
        ),
{
    reveal_strlit("Page.javascriptDialogOpening");
    reveal_strlit("Page.fileChooserOpened");
    assert(opening.method.len() != "Page.fileChooserOpened"@.len());
    assert(events.push(opening).drop_last() =~= events);
}

/// A page that did not come is no visit.
pub proof fn law_a_page_that_did_not_come_is_no_visit(desk: Desk, i: int, report: Report, now: u64)
    requires
        0 <= i < desk.tabs.leaves.len(),
        desk.tabs.leaves[i].after_load(report).problem is Some,
    ensures
        desk.page_named(i, report, now).visited == desk.visited,
{
}

/// While the session of the page in front lives, whatever tabs go, it stays in
/// front.
pub proof fn law_a_living_page_stays_in_front(tabs: Strip, ended: Seq<bool>, n: int)
    requires
        tabs.valid(),
        0 <= n <= ended.len(),
        n <= tabs.leaves.len(),
        tabs.front < tabs.leaves.len(),
        tabs.front < n ==> !ended[tabs.front],
    ensures
        reaped(tabs, ended, n).active() == tabs.active(),
    decreases n,
{
    if n > 0 {
        if ended[n - 1] {
            law_closing_a_tab_behind_leaves_the_one_in_front(tabs, n - 1);
            law_a_living_page_stays_in_front(tabs.closed(n - 1), ended, n - 1);
        } else {
            law_a_living_page_stays_in_front(tabs, ended, n - 1);
        }
    }
}

/// A picture of the page in front is painted, as it came and with the time that
/// came with it, after the engine is told that it has come; one of a page behind
/// is not painted.
pub proof fn law_a_picture_of_the_page_in_front_is_painted(
    sight: Sight,
    params: Value,
    data: Seq<char>,
    session: i64,
)
    requires
        text_of(field(params, "data"@)) == Some(data),
        whole_of(field(params, "sessionId"@)) == Some(session),
    ensures
        frame_seen(sight, params, true).acts == sight.acts.push(PageDeed::Ack { session }).push(
            PageDeed::Frame {
                data,
                stamp: double_in(field2(params, "metadata"@, "timestamp"@)),
            },
        ),
        frame_seen(sight, params, false).acts == sight.acts.push(PageDeed::Ack { session }),
        field(ack_of(session), "sessionId"@) == Some(Value::Number(double_of(session as int))),
{
    let fields = ack_of(session)->Record_0;
    assert(fields[0].0 == "sessionId"@);
    lemma_each_is_found(fields);
}

/// What an event of a page makes of it: one that arrived starts afresh, one that
/// loaded is asked its title, and a dialog or a chooser that opened waits.
pub proof fn law_a_page_is_as_its_events_say(
    leaf: Leaf,
    sight: Sight,
    params: Value,
    at: Standing,
    other: Seq<char>,
)
    ensures
        ({
            let of = |method: Seq<char>| seen_one(leaf, sight, News { method, params }, at);
            let arrived = of("Page.frameNavigated"@);
            let loaded = of("Page.loadEventFired"@);
            let opened = of("Page.javascriptDialogOpening"@);
            let closed = of("Page.javascriptDialogClosed"@);
            let chooser = of("Page.fileChooserOpened"@);
            let frame = of("Page.screencastFrame"@);
            &&& arrival_of(params) matches Some(arrival) ==> arrived.0 == leaf.landed(arrival)
                && arrived.1.redraw && (at.searched ==> arrived.1.find_left)
            &&& arrival_of(params) is None ==> arrived == (leaf, sight)
            &&& loaded.0 == Leaf { loading: false, ..leaf }
            &&& loaded.1.ask_title && loaded.1.redraw
            &&& question(params) matches Some(q) ==> opened.0 == Leaf { dialog: Some(q), ..leaf }
                && opened.1.redraw
            &&& closed.0.dialog is None && closed.1.redraw && closed.1.ask_title
            &&& closed.1.ask_url <==> bool_of(field(params, "result"@)) == Some(false) && (
            leaf.dialog matches Some(q) && q.kind == Kind::BeforeUnload)
            &&& closed.1.ask_url ==> !closed.0.loading && closed.0.note is None
            &&& offer_of(params, at.base, at.home) matches Some(offer) ==> chooser.0 == Leaf {
                upload: Some(offer),
                ..leaf
            } && chooser.1.redraw
            &&& frame.0 == leaf
        }),
{
    reveal_strlit("Page.frameNavigated");
    reveal_strlit("Page.loadEventFired");
    reveal_strlit("Page.javascriptDialogOpening");
    reveal_strlit("Page.javascriptDialogClosed");
    reveal_strlit("Page.fileChooserOpened");
    reveal_strlit("Page.screencastFrame");
    assert("Page.frameNavigated"@.len() == 19);
    assert("Page.loadEventFired"@.len() == 19);
    assert("Page.javascriptDialogOpening"@.len() == 28);
    assert("Page.javascriptDialogClosed"@.len() == 27);
    assert("Page.fileChooserOpened"@.len() == 22);
    assert("Page.screencastFrame"@.len() == 20);
    assert("Page.frameNavigated"@[5] != "Page.loadEventFired"@[5]);
}

/// What one page says changes no other.
pub proof fn law_what_one_page_says_changes_no_other(
    desk: Desk,
    i: int,
    k: int,
    events: Seq<News>,
    from: int,
    sight: Sight,
    base: Seq<char>,
    home: Option<Seq<char>>,
    report: Report,
    now: u64,
)
    requires
        0 <= i < desk.tabs.leaves.len(),
        0 <= k < desk.tabs.leaves.len(),
        i != k,
    ensures
        desk.page_heard(i, events, from, sight, base, home).0.tabs.leaves[k]
            == desk.tabs.leaves[k],
        desk.page_heard(i, events, from, sight, base, home).0.tabs.front == desk.tabs.front,
        desk.page_named(i, report, now).tabs.leaves[k] == desk.tabs.leaves[k],
{
}

/// A page that loaded is named as it says, and a page that came is remembered.
pub proof fn law_a_page_that_came_is_remembered(desk: Desk, i: int, report: Report, now: u64)
    requires
        0 <= i < desk.tabs.leaves.len(),
    ensures
        desk.page_named(i, report, now).tabs.leaves[i] == desk.tabs.leaves[i].after_load(report),
        desk.tabs.leaves[i].after_load(report).problem is None ==> desk.page_named(
            i,
            report,
            now,
        ).visited == after_visit(desk.visited, desk.tabs.leaves[i].url, report.title, now),
{
}

/// The pages that are still there, in their order.
pub open spec fn living(leaves: Seq<Leaf>, ended: Seq<bool>) -> Seq<Leaf>
    decreases leaves.len(),
{
    if leaves.len() == 0 {
        Seq::empty()
    } else if ended[leaves.len() - 1] {
        living(leaves.drop_last(), ended)
    } else {
        living(leaves.drop_last(), ended).push(leaves.last())
    }
}

/// The tabs of pages that are gone go, and every other stays where it was among
/// the rest.
pub proof fn law_only_the_dead_go(tabs: Strip, ended: Seq<bool>, n: int)
    requires
        0 <= n <= tabs.leaves.len(),
        n <= ended.len(),
    ensures
        reaped(tabs, ended, n).leaves == living(tabs.leaves.take(n), ended) + tabs.leaves.skip(n),
    decreases n,
{
    if n > 0 {
        let front = tabs.leaves.take(n);
        assert(front.drop_last() =~= tabs.leaves.take(n - 1));
        assert(front.last() == tabs.leaves[n - 1]);
        if ended[n - 1] {
            let rest = tabs.closed(n - 1);
            law_only_the_dead_go(rest, ended, n - 1);
            assert(rest.leaves.take(n - 1) =~= tabs.leaves.take(n - 1));
            assert(rest.leaves.skip(n - 1) =~= tabs.leaves.skip(n));
        } else {
            law_only_the_dead_go(tabs, ended, n - 1);
            assert(reaped(tabs, ended, n).leaves =~= living(front, ended) + tabs.leaves.skip(n));
        }
    } else {
        assert(tabs.leaves.skip(0) =~= tabs.leaves);
        assert(living(tabs.leaves.take(0), ended) + tabs.leaves.skip(0) =~= tabs.leaves);
    }
}

/// It is over when no page is left, in peace or with what was said last; otherwise
/// it goes on and what was said is shown.
pub proof fn law_it_is_over_when_no_page_is_left(
    desk: Desk,
    was: Option<Seq<char>>,
    words: Seq<char>,
    redraw: bool,
)
    requires
        desk.tabs.valid(),
    ensures
        desk.tabs.leaves.len() == 0 ==> desk.settled(was, Tale { redraw, note: None }).2
            == Finish::Clean && desk.settled(was, Tale { redraw, note: Some(words) }).2
            == Finish::Sorry(words),
        desk.tabs.leaves.len() > 0 ==> {
            &&& desk.settled(was, Tale { redraw, note: None }).2 == Finish::Goes
            &&& desk.settled(was, Tale { redraw, note: None }).0 == desk
            &&& desk.settled(was, Tale { redraw, note: Some(words) }).0.tabs.active() matches Some(
                leaf,
            ) && leaf.note == Some(words)
            &&& desk.settled(was, Tale { redraw, note: None }).1[0] == (Deed::Switched { was })
            &&& redraw <==> desk.settled(was, Tale { redraw, note: None }).1.contains(Deed::Redraw)
        },
{
    if desk.tabs.leaves.len() > 0 {
        let acts = desk.settled(was, Tale { redraw, note: None }).1;
        if redraw {
            assert(acts[1] == Deed::Redraw);
        } else {
            assert(acts.len() == 1 && acts[0] is Switched);
        }
    }
}

/// When pages are gone and some are left, what is shown is drawn anew from the page
/// that was in front; when none is gone nothing is done.
pub proof fn law_a_death_is_drawn(desk: Desk, ended: Seq<bool>)
    requires
        ended.len() == desk.tabs.leaves.len(),
    ensures
        ({
            let left = living(desk.tabs.leaves, ended);
            let (after, acts) = desk.without_dead(ended);
            &&& after.tabs.leaves == left
            &&& 0 < left.len() < desk.tabs.leaves.len() ==> acts == seq![
                Deed::Switched { was: desk.tabs.active_target() },
                Deed::Redraw,
            ]
            &&& left.len() == 0 || left.len() == desk.tabs.leaves.len() ==> acts.len() == 0
        }),
{
    let n = desk.tabs.leaves.len() as int;
    law_only_the_dead_go(desk.tabs, ended, n);
    assert(desk.tabs.leaves.take(n) =~= desk.tabs.leaves);
    assert(desk.tabs.leaves.skip(n) =~= Seq::<Leaf>::empty());
    assert(living(desk.tabs.leaves, ended) + Seq::<Leaf>::empty() =~= living(
        desk.tabs.leaves,
        ended,
    ));
}

}
