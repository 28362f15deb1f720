//! The loop's own decisions: what a pass does and in which order, what it makes
//! of silence, how a page is made to paint, when a still is given up on, and how
//! the program leaves.
use vstd::prelude::*;

use crate::app::{deeds, Act, Browser, Deed, Desk};
use crate::base64::{decode, decoded, encoded, law_decoding_undoes_encoding};
use crate::bytes::utf8;
use crate::double::Double;
use crate::errands::{cast, emulate_params, put_to, screencast_params, sized, tell};
use crate::events::{page_deeds, PageAct, PageDeed};
use crate::fit::{at_least_one, bounded_product, Metrics};
use crate::json::{field, lemma_each_is_found, record_of, text_of, Json, Value};
use crate::motion::{stamp, stamp_of, Motion};
use crate::seek::{Echo, Reply};
use crate::strings::same;
use crate::tabs::{Leaf, Tabs};

verus! {

/// How long a paste that was opened may go without a byte, in nanoseconds.
pub const PASTE_IDLE: u64 = 2_000_000_000;

/// How often the engine is looked at, in nanoseconds.
pub const CHECK_EVERY: u64 = 500_000_000;

/// How long the engine gets to draw a still, in nanoseconds.
pub const STILL_TIMEOUT: u64 = 2_000_000_000;

// ---- one pass ----

/// Something a pass of the loop does.
#[derive(Debug, Clone, Copy, PartialEq, Eq, Structural)]
pub enum Chore {
    /// Leave.
    Over,
    /// Take a download's last word off the row when it has been there long
    /// enough.
    Expire,
    /// Measure the pane again.
    Resize,
    /// See whether the engine has died.
    CheckEngine,
    /// See whether the engine has stopped talking.
    CheckBrowser,
    /// Drop the tabs whose session has gone.
    Reap,
    /// Wait for something to happen.
    Wait,
    /// Read what the terminal said, or make something of its silence.
    Listen,
    /// Hear what the wheel has been doing.
    Wheel,
    /// Empty the pipes that knocked.
    Drain,
    /// Which pages there are.
    Targets,
    /// What the pages say.
    Pages,
    /// The answer to a navigation.
    Navigation,
    /// The answer to a search, and the next one.
    Search,
    /// A page that has stopped moving gets its picture.
    Rest,
}

/// A page closed itself, or the person quit: the loop is over.
pub open spec fn is_over(quit: bool, empty: bool) -> bool {
    quit || empty
}

/// What a pass does, in order. Which pages there are comes before what they
/// say, so that a frame is read of whichever is in front once the list has
/// settled; and the still comes last, because it is the thing to do when nothing
/// else happened.
pub open spec fn pass_of(quit: bool, empty: bool, resized: bool, due: bool, out: bool) -> Seq<Chore> {
    if is_over(quit, empty) {
        seq![Chore::Over]
    } else {
        seq![Chore::Expire] + (if resized {
            seq![Chore::Resize]
        } else {
            Seq::empty()
        }) + (if due {
            seq![Chore::CheckEngine]
        } else {
            Seq::empty()
        }) + seq![
            Chore::CheckBrowser,
            Chore::Reap,
            Chore::Wait,
            Chore::Listen,
            Chore::Wheel,
            Chore::Drain,
            Chore::Targets,
            Chore::Pages,
        ] + (if out {
            seq![Chore::Navigation]
        } else {
            Seq::empty()
        }) + seq![Chore::Search, Chore::Rest]
    }
}

/// What a pass does, in order: whether the person quit, whether there is no tab
/// left, whether the pane has changed, how long ago the engine was looked at,
/// and whether a navigation is out.
pub fn pass(quit: bool, empty: bool, resized: bool, since_check: u64, out: bool) -> (r: Vec<Chore>)
    ensures
        r@ == pass_of(quit, empty, resized, is_due(since_check), out),
        r@ == pass_of(quit, empty, resized, since_check > CHECK_EVERY, out),
{
    let mut chores: Vec<Chore> = Vec::new();
    if quit || empty {
        chores.push(Chore::Over);
        return chores;
    }
    chores.push(Chore::Expire);
    if resized {
        chores.push(Chore::Resize);
    }
    if since_check > CHECK_EVERY {
        chores.push(Chore::CheckEngine);
    }
    chores.push(Chore::CheckBrowser);
    chores.push(Chore::Reap);
    chores.push(Chore::Wait);
    chores.push(Chore::Listen);
    chores.push(Chore::Wheel);
    chores.push(Chore::Drain);
    chores.push(Chore::Targets);
    chores.push(Chore::Pages);
    if out {
        chores.push(Chore::Navigation);
    }
    chores.push(Chore::Search);
    chores.push(Chore::Rest);
    proof {
        assert(chores@ =~= pass_of(quit, empty, resized, since_check > CHECK_EVERY, out));
    }
    chores
}

/// What to make of the terminal.
#[derive(Debug, Clone, Copy, PartialEq, Eq, Structural)]
pub enum Listening {
    /// It has something to say.
    Read,
    /// A paste that was opened has gone quiet: its end is not coming.
    Abandon,
    /// It said nothing, so a held escape was the Escape key after all.
    Flush,
}

/// What to make of the terminal: `heard` is when it last sent a byte of a paste
/// that is still open.
pub fn listen(ready: bool, heard: Option<u64>, now: u64) -> (r: Listening)
    ensures
        r == listening(ready, heard, now),
        r == (if ready {
            Listening::Read
        } else {
            match heard {
                Some(at) => if now > at && now - at > PASTE_IDLE {
                    Listening::Abandon
                } else {
                    Listening::Flush
                },
                None => Listening::Flush,
            }
        }),
{
    if ready {
        return Listening::Read;
    }
    match heard {
        Some(at) => if now > at && now - at > PASTE_IDLE {
            Listening::Abandon
        } else {
            Listening::Flush
        },
        None => Listening::Flush,
    }
}

/// When the terminal last sent a byte of a paste that is still open, after a
/// read: none when no paste is.
pub fn heard(pasting: bool, now: u64) -> (r: Option<u64>)
    ensures
        r == (if pasting {
            Some(now)
        } else {
            None
        }),
{
    if pasting {
        Some(now)
    } else {
        None
    }
}

// ---- a pane of another size ----

impl Desk {
    /// The pane has changed: the page in front is told its size and cast anew.
    /// What was captured before is of another size.
    pub open spec fn resized(self, metrics: Metrics) -> (Desk, Seq<Deed>) {
        let width = bounded_product(at_least_one(metrics.cols as int), metrics.cell.0);
        let height = bounded_product(at_least_one(metrics.rows - 1), metrics.cell.1);
        (
            Desk { metrics, ..self },
            seq![Deed::Write(utf8("\x1b[2J"@))] + (match self.tabs.active() {
                Some(leaf) => {
                    let stopped = leaf.dialog is Some;
                    seq![
                        put_to(
                            leaf.target,
                            stopped,
                            "Emulation.setDeviceMetricsOverride"@,
                            sized(width, height),
                        ),
                        put_to(
                            leaf.target,
                            stopped,
                            "Page.stopScreencast"@,
                            Value::Record(Seq::empty()),
                        ),
                        put_to(leaf.target, stopped, "Page.startScreencast"@, cast(width, height)),
                    ]
                },
                None => Seq::empty(),
            }).push(Deed::Redraw),
        )
    }
}

impl Browser {
    /// The pane has changed.
    pub fn resize(&mut self, metrics: Metrics) -> (r: Vec<Act>)
        requires
            old(self).wf(),
        ensures
            final(self).wf(),
            (final(self)@, deeds(r@)) == old(self)@.resized(metrics),
    {
        self.metrics = metrics;
        let mut clear: Vec<u8> = Vec::new();
        crate::bytes::push_text(&mut clear, "\x1b[2J");
        proof {
            assert(clear@ =~= utf8("\x1b[2J"@));
        }
        let mut acts = vec![Act::Write(clear)];
        match self.tabs.active() {
            Some(tab) => {
                let stopped = tab.dialog.is_some();
                acts.push(
                    tell(
                        tab.target.clone(),
                        stopped,
                        "Emulation.setDeviceMetricsOverride",
                        emulate_params(metrics),
                    ),
                );
                acts.push(
                    tell(tab.target.clone(), stopped, "Page.stopScreencast", Json::empty()),
                );
                acts.push(
                    tell(
                        tab.target.clone(),
                        stopped,
                        "Page.startScreencast",
                        screencast_params(metrics),
                    ),
                );
            },
            None => {},
        }
        acts.push(Act::Redraw);
        proof {
            assert(deeds(acts@) =~= old(self)@.resized(metrics).1);
        }
        acts
    }
}

// ---- making a page paint ----

/// How far along a page is to painting.
#[derive(Debug, Clone, Copy, PartialEq, Eq, Structural)]
pub enum Stage {
    /// The engine is told that it is in front.
    Raise,
    /// Its events are asked for.
    Enable,
    /// It is told its size.
    Size,
    /// It is asked what it calls itself, unless it is stopped.
    Ask,
    /// Its frames are asked for.
    Cast,
    /// It paints.
    Done,
}

/// A page being made to paint: how far along it is, and whether it is stopped
/// behind a dialog, which decides whether anything can be waited for.
#[derive(Debug, Clone, Copy, PartialEq, Eq, Structural)]
pub struct Activation {
    pub stage: Stage,
    pub stopped: bool,
}

impl Activation {
    /// What follows when a command has been put to the page, and `dialog` says
    /// whether it has one open by now. A page that opened its dialog between
    /// the look and the command is fine: the rest is told rather than asked.
    /// Any other page that does not answer is one that does not paint.
    pub open spec fn after(self, ok: bool, dialog: bool) -> Option<Activation> {
        match self.stage {
            Stage::Raise => Some(Activation { stage: Stage::Enable, stopped: dialog }),
            Stage::Enable => if ok {
                Some(Activation { stage: Stage::Size, ..self })
            } else if dialog {
                Some(Activation { stage: Stage::Size, stopped: true })
            } else {
                None
            },
            Stage::Size => if ok {
                Some(Activation { stage: Stage::Ask, ..self })
            } else {
                None
            },
            Stage::Ask => Some(Activation { stage: Stage::Cast, ..self }),
            Stage::Cast => if ok {
                Some(Activation { stage: Stage::Done, ..self })
            } else {
                None
            },
            Stage::Done => Some(self),
        }
    }

    /// What is put to the page at a stage; nothing while it is raised or asked,
    /// which are no commands to it, and nothing once it paints.
    pub open spec fn order(self, target: Seq<char>, width: u32, height: u32) -> Option<Deed> {
        match self.stage {
            Stage::Enable => Some(
                put_to(target, self.stopped, "Page.enable"@, Value::Record(Seq::empty())),
            ),
            Stage::Size => Some(
                put_to(
                    target,
                    self.stopped,
                    "Emulation.setDeviceMetricsOverride"@,
                    sized(width, height),
                ),
            ),
            Stage::Cast => Some(
                put_to(target, self.stopped, "Page.startScreencast"@, cast(width, height)),
            ),
            _ => None,
        }
    }

    /// A page that is to paint.
    pub fn new() -> (r: Activation)
        ensures
            r == (Activation { stage: Stage::Raise, stopped: false }),
    {
        Activation { stage: Stage::Raise, stopped: false }
    }

    /// What is put to the page next.
    pub fn next(&self, target: &str, metrics: Metrics) -> (r: Option<Act>)
        ensures
            ({
                let width = bounded_product(at_least_one(metrics.cols as int), metrics.cell.0);
                let height = bounded_product(at_least_one(metrics.rows - 1), metrics.cell.1);
                match r {
                    Some(act) => self.order(target@, width, height) == Some(act@),
                    None => self.order(target@, width, height) is None,
                }
            }),
    {
        let target = target.to_owned();
        match self.stage {
            Stage::Enable => Some(tell(target, self.stopped, "Page.enable", Json::empty())),
            Stage::Size => Some(
                tell(
                    target,
                    self.stopped,
                    "Emulation.setDeviceMetricsOverride",
                    emulate_params(metrics),
                ),
            ),
            Stage::Cast => Some(
                tell(target, self.stopped, "Page.startScreencast", screencast_params(metrics)),
            ),
            _ => None,
        }
    }

    /// A command has been put to the page: what follows, or why the page does
    /// not paint.
    pub fn done(self, outcome: Result<(), String>, dialog: bool) -> (r: Result<Activation, String>)
        ensures
            match r {
                Ok(next) => self.after(outcome is Ok, dialog) == Some(next),
                Err(why) => self.after(outcome is Ok, dialog) is None && outcome == Err::<
                    (),
                    String,
                >(why),
            },
    {
        match self.stage {
            Stage::Raise => Ok(Activation { stage: Stage::Enable, stopped: dialog }),
            Stage::Enable => match outcome {
                Ok(_) => Ok(Activation { stage: Stage::Size, stopped: self.stopped }),
                Err(why) => if dialog {
                    Ok(Activation { stage: Stage::Size, stopped: true })
                } else {
                    Err(why)
                },
            },
            Stage::Size => match outcome {
                Ok(_) => Ok(Activation { stage: Stage::Ask, stopped: self.stopped }),
                Err(why) => Err(why),
            },
            Stage::Ask => Ok(Activation { stage: Stage::Cast, stopped: self.stopped }),
            Stage::Cast => match outcome {
                Ok(_) => Ok(Activation { stage: Stage::Done, stopped: self.stopped }),
                Err(why) => Err(why),
            },
            Stage::Done => Ok(self),
        }
    }
}

/// `{"targetId": target}`: the engine's own commands about a page.
pub open spec fn named_target(target: Seq<char>) -> Value {
    Value::Record(seq![("targetId"@, Value::Text(target))])
}

/// The parameters of `Target.activateTarget` and of `Target.closeTarget`.
pub fn target_params(target: &str) -> (r: Json)
    ensures
        r@ == named_target(target@),
{
    let fields = vec![("targetId", Json::string(target))];
    proof {
        assert(record_of(fields@) =~= named_target(target@)->Record_0);
    }
    Json::object(fields)
}

/// `{"url": url}`: where a page is to go.
pub open spec fn named_url(url: Seq<char>) -> Value {
    Value::Record(seq![("url"@, Value::Text(url))])
}

/// The parameters of `Page.navigate` and of `Target.createTarget`.
pub fn url_params(url: &str) -> (r: Json)
    ensures
        r@ == named_url(url@),
{
    let fields = vec![("url", Json::string(url))];
    proof {
        assert(record_of(fields@) =~= named_url(url@)->Record_0);
    }
    Json::object(fields)
}

/// `{name: true}`: what switches something on.
pub open spec fn switched_on(name: Seq<char>) -> Value {
    Value::Record(seq![(name, Value::Bool(true))])
}

/// The parameters that switch something on: a page's file inputs being asked
/// about on the row, or the engine saying which pages there are.
pub fn on_params(name: &str) -> (r: Json)
    ensures
        r@ == switched_on(name@),
{
    let fields = vec![(name, Json::Bool(true))];
    proof {
        assert(record_of(fields@) =~= switched_on(name@)->Record_0);
    }
    Json::object(fields)
}

// ---- stills ----

/// A `Page.captureScreenshot` that is out with the engine: of which page, the
/// ticket its answer will bear, and when it went.
#[derive(Debug, PartialEq, Eq)]
pub struct Still {
    pub target: String,
    pub ticket: i64,
    pub sent: u64,
}

/// What to make of a still that is out.
#[derive(Debug, Clone, Copy, PartialEq, Eq, Structural)]
pub enum Waited {
    /// It may still come.
    Keep,
    /// Its page is not in front any more: nobody will collect it.
    Drop,
    /// It is not coming.
    GiveUp,
    /// It has come.
    Take,
}

/// What to make of a still of a page, given which page is in front and whether
/// its answer has come.
pub open spec fn waited(
    target: Seq<char>,
    sent: u64,
    front: Option<Seq<char>>,
    came: bool,
    now: u64,
) -> Waited {
    if front != Some(target) {
        Waited::Drop
    } else if came {
        Waited::Take
    } else if now >= sent && now - sent >= STILL_TIMEOUT {
        Waited::GiveUp
    } else {
        Waited::Keep
    }
}

/// What to make of a still that is out.
pub fn collect_still(still: &Still, tabs: &Tabs, came: bool, now: u64) -> (r: Waited)
    requires
        tabs.wf(),
    ensures
        r == waited(still.target@, still.sent, tabs@.active_target(), came, now),
{
    let here = match tabs.active_target() {
        Some(target) => same(target.as_str(), still.target.as_str()),
        None => false,
    };
    if !here {
        Waited::Drop
    } else if came {
        Waited::Take
    } else if now >= still.sent && now - still.sent >= STILL_TIMEOUT {
        Waited::GiveUp
    } else {
        Waited::Keep
    }
}

/// The picture in the answer to a `Page.captureScreenshot`, still encoded; none
/// when it was refused, or is not what it says.
pub open spec fn picture_of(answer: Echo) -> Option<Seq<u8>> {
    match answer {
        Echo::Came(reply) => match text_of(field(reply, "data"@)) {
            Some(data) => decoded(utf8(data)),
            None => None,
        },
        _ => None,
    }
}

/// The picture in the answer to a `Page.captureScreenshot`.
pub fn picture(answer: &Reply) -> (r: Option<Vec<u8>>)
    ensures
        match r {
            Some(bytes) => picture_of(answer@) == Some(bytes@),
            None => picture_of(answer@) is None,
        },
{
    match answer {
        Reply::Came(reply) => match reply.text_at("data") {
            Some(data) => decode(data.as_bytes()),
            None => None,
        },
        _ => None,
    }
}

/// What is left to paint of what a page's events ask for: the newest frame that
/// does not lose to what is on the screen and is what it says. Every frame is
/// told to the policy, though at most one is painted: in a still's window it is
/// their number that counts.
pub open spec fn coalesced(motion: Motion, acts: Seq<PageDeed>, now: u64) -> (
    Motion,
    Option<Seq<u8>>,
)
    decreases acts.len(),
{
    if acts.len() == 0 {
        (motion, None)
    } else {
        let (before, newest) = coalesced(motion, acts.drop_last(), now);
        match acts.last() {
            PageDeed::Frame { data, stamp } => {
                let at = match stamp {
                    Some(seconds) => stamp_of(seconds),
                    None => None,
                };
                (
                    before.framed(at, now),
                    if !before.loses(at) && decoded(utf8(data)) is Some {
                        decoded(utf8(data))
                    } else {
                        newest
                    },
                )
            },
            _ => (before, newest),
        }
    }
}

/// Tell the policy of every frame there is among what a page's events ask for:
/// the one that is worth painting.
pub fn coalesce(motion: &mut Motion, acts: &[PageAct], now: u64) -> (r: Option<Vec<u8>>)
    ensures
        *final(motion) == coalesced(*old(motion), page_deeds(acts@), now).0,
        match r {
            Some(bytes) => coalesced(*old(motion), page_deeds(acts@), now).1 == Some(bytes@),
            None => coalesced(*old(motion), page_deeds(acts@), now).1 is None,
        },
{
    let mut newest: Option<Vec<u8>> = None;
    let mut i: usize = 0;
    let ghost all = page_deeds(acts@);
    proof {
        assert(all.take(0) =~= Seq::<PageDeed>::empty());
    }
    while i < acts.len()
        invariant
            i <= acts@.len(),
            all == page_deeds(acts@),
            *motion == coalesced(*old(motion), all.take(i as int), now).0,
            match newest {
                Some(bytes) => coalesced(*old(motion), all.take(i as int), now).1 == Some(bytes@),
                None => coalesced(*old(motion), all.take(i as int), now).1 is None,
            },
        decreases acts@.len() - i,
    {
        proof {
            assert(all.take(i + 1).drop_last() =~= all.take(i as int));
            assert(all.take(i + 1).last() == acts@[i as int]@);
        }
        match &acts[i] {
            PageAct::Frame { data, stamp: seconds } => {
                let at = match seconds {
                    Some(seconds) => stamp(*seconds),
                    None => None,
                };
                if motion.motion_frame(at, now) {
                    match decode(data.as_str().as_bytes()) {
                        Some(bytes) => newest = Some(bytes),
                        None => {},
                    }
                }
            },
            _ => {},
        }
        i += 1;
    }
    proof {
        assert(all.take(i as int) =~= all);
    }
    newest
}

/// What asks a page for its still.
pub open spec fn still_asked() -> Value {
    Value::Record(seq![("format"@, Value::Text("png"@))])
}

/// The page to ask for a still, if the page in front has earned one: not while
/// it is stopped behind a dialog, since the engine does not draw a page that is.
pub fn request_still(tabs: &Tabs, earned: bool) -> (r: Option<(String, Json)>)
    requires
        tabs.wf(),
    ensures
        match r {
            Some((target, params)) => earned && !crate::row::is_asking(tabs@)
                && tabs@.active_target() == Some(target@) && params@ == still_asked(),
            None => !earned || crate::row::is_asking(tabs@) || tabs@.active() is None,
        },
{
    if crate::row::asking(tabs) || !earned {
        return None;
    }
    match tabs.active_target() {
        Some(target) => {
            let fields = vec![("format", Json::string("png"))];
            proof {
                assert(record_of(fields@) =~= still_asked()->Record_0);
            }
            Some((target, Json::object(fields)))
        },
        None => None,
    }
}

// ---- leaving ----

/// One step of leaving.
#[derive(Debug, Clone, Copy, PartialEq, Eq, Structural)]
pub enum Farewell {
    /// Give the terminal back.
    LeavePane,
    /// Close every page's session.
    DropTabs,
    /// Cancel what is still coming, so that the engine removes its partial
    /// files.
    CancelDownloads,
    /// Ask the engine to close, which is the only stop that writes the profile.
    CloseEngine,
    /// Wait for it to have written the profile.
    WaitForEngine,
    /// Close the connection to it.
    CloseConnection,
    /// Stop it.
    KillEngine,
    /// Remove the partial files that this run saw begin and not save.
    RemovePartials,
}

/// How the program leaves: a temporary profile has nothing worth writing.
pub open spec fn leaving_of(temporary: bool) -> Seq<Farewell> {
    seq![Farewell::LeavePane, Farewell::DropTabs, Farewell::CancelDownloads] + (if temporary {
        Seq::empty()
    } else {
        seq![Farewell::CloseEngine, Farewell::WaitForEngine]
    }) + seq![Farewell::CloseConnection, Farewell::KillEngine, Farewell::RemovePartials]
}

/// How the program leaves, whichever way it came to.
pub fn leaving(temporary: bool) -> (r: Vec<Farewell>)
    ensures
        r@ == leaving_of(temporary),
{
    let mut steps = vec![Farewell::LeavePane, Farewell::DropTabs, Farewell::CancelDownloads];
    if !temporary {
        steps.push(Farewell::CloseEngine);
        steps.push(Farewell::WaitForEngine);
    }
    steps.push(Farewell::CloseConnection);
    steps.push(Farewell::KillEngine);
    steps.push(Farewell::RemovePartials);
    proof {
        assert(steps@ =~= leaving_of(temporary));
    }
    steps
}

// ---- laws ----

/// A page is made to paint in at most five steps, whatever it answers.
pub proof fn law_a_page_paints_or_does_not(a: Activation, ok: bool, dialog: bool)
    ensures
        a.after(ok, dialog) matches Some(next) ==> steps_left(next.stage) < steps_left(a.stage)
            || a.stage == Stage::Done,
{
}

/// How many steps are left before a page paints.
pub open spec fn steps_left(stage: Stage) -> int {
    match stage {
        Stage::Raise => 5,
        Stage::Enable => 4,
        Stage::Size => 3,
        Stage::Ask => 2,
        Stage::Cast => 1,
        Stage::Done => 0,
    }
}

/// A page stopped behind a dialog is never waited for.
pub proof fn law_a_stopped_page_is_told_and_not_asked(
    a: Activation,
    target: Seq<char>,
    width: u32,
    height: u32,
)
    requires
        a.stopped,
    ensures
        a.order(target, width, height) matches Some(deed) ==> deed is Tell,
{
}

/// The partial files are removed only once nothing can be writing them: after
/// the engine has been stopped, however the program leaves.
pub proof fn law_partials_go_after_the_engine(temporary: bool)
    ensures
        leaving_of(temporary).last() == Farewell::RemovePartials,
        leaving_of(temporary)[leaving_of(temporary).len() - 2] == Farewell::KillEngine,
        leaving_of(temporary)[2] == Farewell::CancelDownloads,
{
}

/// A still of one page is never painted under another.
pub proof fn law_a_still_is_of_the_page_in_front(
    target: Seq<char>,
    sent: u64,
    front: Option<Seq<char>>,
    came: bool,
    now: u64,
)
    ensures
        waited(target, sent, front, came, now) == Waited::Take ==> front == Some(target),
{
}

/// A pass that goes on looks at the tabs before it reads what they say, and
/// takes a picture last.
pub proof fn law_the_list_settles_before_the_pages_are_read(resized: bool, due: bool, out: bool)
    ensures
        ({
            let chores = pass_of(false, false, resized, due, out);
            let n = chores.len() - (if out {
                3int
            } else {
                2
            });
            &&& chores.last() == Chore::Rest
            &&& chores[n - 1] == Chore::Pages
            &&& chores[n - 2] == Chore::Targets
        }),
{
}

/// A frame that does not lose to the screen is painted in place of all those
/// before it; one that loses leaves what there was to paint.
pub proof fn law_the_newest_frame_is_the_one_painted(
    motion: Motion,
    acts: Seq<PageDeed>,
    data: Seq<char>,
    seconds: Double,
    now: u64,
)
    requires
        decoded(utf8(data)) is Some,
    ensures
        ({
            let before = coalesced(motion, acts, now);
            let after = coalesced(
                motion,
                acts.push(PageDeed::Frame { data, stamp: Some(seconds) }),
                now,
            );
            after.1 == (if before.0.loses(stamp_of(seconds)) {
                before.1
            } else {
                decoded(utf8(data))
            })
        }),
{
    let all = acts.push(PageDeed::Frame { data, stamp: Some(seconds) });
    assert(all.drop_last() =~= acts);
}

/// The policy hears the frames of two reads as it would have heard them in one.
pub proof fn law_the_policy_hears_every_frame(
    motion: Motion,
    a: Seq<PageDeed>,
    b: Seq<PageDeed>,
    now: u64,
)
    ensures
        coalesced(motion, a + b, now).0 == coalesced(coalesced(motion, a, now).0, b, now).0,
    decreases b.len(),
{
    if b.len() == 0 {
        assert(a + b =~= a);
    } else {
        assert((a + b).drop_last() =~= a + b.drop_last());
        assert((a + b).last() == b.last());
        law_the_policy_hears_every_frame(motion, a, b.drop_last(), now);
    }
}

/// Whether the engine is to be looked at again.
pub open spec fn is_due(since_check: u64) -> bool {
    since_check > CHECK_EVERY
}

/// What is done about what is typed.
pub open spec fn listening(ready: bool, heard: Option<u64>, now: u64) -> Listening {
    if ready {
        Listening::Read
    } else {
        match heard {
            Some(at) => if now > at && now - at > PASTE_IDLE {
                Listening::Abandon
            } else {
                Listening::Flush
            },
            None => Listening::Flush,
        }
    }
}

/// A paste whose end does not come is given up after two seconds and not before,
/// and what there is to read is read first.
pub proof fn law_a_paste_without_an_end_is_given_up(heard: Option<u64>, now: u64)
    ensures
        listening(true, heard, now) == Listening::Read,
        listening(false, heard, now) == Listening::Abandon <==> (heard matches Some(at) && now - at
            > 2_000_000_000),
        listening(false, heard, now) != Listening::Read,
{
}

/// What one turn is made of: nothing when it is over, and otherwise everything,
/// with a resize when there was one, a look at the engine twice a second and at a
/// navigation while one is out.
pub proof fn law_a_turn_does_everything_once(resized: bool, since: u64, out: bool, empty: bool)
    ensures
        pass_of(true, empty, resized, is_due(since), out) == seq![Chore::Over],
        pass_of(false, true, resized, is_due(since), out) == seq![Chore::Over],
        ({
            let chores = pass_of(false, false, resized, is_due(since), out);
            &&& chores.contains(Chore::Resize) <==> resized
            &&& chores.contains(Chore::CheckEngine) <==> since > 500_000_000
            &&& chores.contains(Chore::Navigation) <==> out
            &&& !chores.contains(Chore::Over)
            &&& chores.contains(Chore::CheckBrowser) && chores.contains(Chore::Reap)
                && chores.contains(Chore::Wait) && chores.contains(Chore::Listen)
                && chores.contains(Chore::Wheel) && chores.contains(Chore::Drain)
                && chores.contains(Chore::Targets) && chores.contains(Chore::Pages)
                && chores.contains(Chore::Search) && chores.contains(Chore::Rest)
            &&& chores[0] == Chore::Expire
        }),
{
    let chores = pass_of(false, false, resized, is_due(since), out);
    let a: int = if resized {
        2
    } else {
        1
    };
    let b: int = if is_due(since) {
        a + 1
    } else {
        a
    };
    let c: int = if out {
        b + 9
    } else {
        b + 8
    };
    assert(resized ==> chores[1] == Chore::Resize);
    assert(is_due(since) ==> chores[a] == Chore::CheckEngine);
    assert(chores[b] == Chore::CheckBrowser && chores[b + 1] == Chore::Reap && chores[b + 2]
        == Chore::Wait && chores[b + 3] == Chore::Listen && chores[b + 4] == Chore::Wheel
        && chores[b + 5] == Chore::Drain && chores[b + 6] == Chore::Targets && chores[b + 7]
        == Chore::Pages);
    assert(out ==> chores[b + 8] == Chore::Navigation);
    assert(chores[c] == Chore::Search && chores[c + 1] == Chore::Rest);
    assert(chores.len() == c + 2);
    assert forall|i: int| 0 <= i < chores.len() implies (#[trigger] chores[i] == Chore::Resize
        ==> resized) && (chores[i] == Chore::CheckEngine ==> is_due(since)) && (chores[i]
        == Chore::Navigation ==> out) && chores[i] != Chore::Over by {
        if i == 0 {
        } else if i < a {
        } else if i < b {
        } else if i < b + 8 {
        } else if i < c {
        }
    }
}

/// A pane of another size is cleared, and the page in front is told its new size
/// and asked for pictures of it anew.
pub proof fn law_a_resize_asks_for_pictures_anew(desk: Desk, leaf: Leaf, metrics: Metrics)
    requires
        desk.tabs.active() == Some(leaf),
    ensures
        ({
            let (after, acts) = desk.resized(metrics);
            let width = bounded_product(at_least_one(metrics.cols as int), metrics.cell.0);
            let height = bounded_product(at_least_one(metrics.rows - 1), metrics.cell.1);
            let stopped = leaf.dialog is Some;
            &&& after == Desk { metrics, ..desk }
            &&& acts.len() == 5
            &&& acts[0] is Write
            &&& acts[1] == put_to(
                leaf.target,
                stopped,
                "Emulation.setDeviceMetricsOverride"@,
                sized(width, height),
            )
            &&& acts[2] == put_to(
                leaf.target,
                stopped,
                "Page.stopScreencast"@,
                Value::Record(Seq::empty()),
            )
            &&& acts[3] == put_to(
                leaf.target,
                stopped,
                "Page.startScreencast"@,
                cast(width, height),
            )
            &&& acts[4] == Deed::Redraw
        }),
{
}

/// A page is made ready one step after the other: switched on, told its size and
/// asked for pictures; what does not answer because it waits goes on unasked, and
/// anything else that fails ends it.
pub proof fn law_a_page_is_made_ready_in_order(
    target: Seq<char>,
    width: u32,
    height: u32,
    stopped: bool,
    dialog: bool,
)
    ensures
        ({
            let at = |stage: Stage| Activation { stage, stopped };
            &&& at(Stage::Raise).after(true, dialog) == Some(
                Activation { stage: Stage::Enable, stopped: dialog },
            )
            &&& at(Stage::Raise).after(false, dialog) == at(Stage::Raise).after(true, dialog)
            &&& at(Stage::Enable).after(true, dialog) == Some(at(Stage::Size))
            &&& at(Stage::Enable).after(false, true) == Some(
                Activation { stage: Stage::Size, stopped: true },
            )
            &&& at(Stage::Enable).after(false, false) is None
            &&& at(Stage::Size).after(true, dialog) == Some(at(Stage::Ask))
            &&& at(Stage::Size).after(false, dialog) is None
            &&& at(Stage::Ask).after(false, dialog) == Some(at(Stage::Cast))
            &&& at(Stage::Ask).after(true, dialog) == Some(at(Stage::Cast))
            &&& at(Stage::Cast).after(true, dialog) == Some(at(Stage::Done))
            &&& at(Stage::Cast).after(false, dialog) is None
            &&& at(Stage::Enable).order(target, width, height) == Some(
                put_to(target, stopped, "Page.enable"@, Value::Record(Seq::empty())),
            )
            &&& at(Stage::Size).order(target, width, height) == Some(
                put_to(
                    target,
                    stopped,
                    "Emulation.setDeviceMetricsOverride"@,
                    sized(width, height),
                ),
            )
            &&& at(Stage::Cast).order(target, width, height) == Some(
                put_to(target, stopped, "Page.startScreencast"@, cast(width, height)),
            )
        }),
{
}

/// A still is waited for two seconds, and only while its page is in front.
pub proof fn law_a_still_is_waited_for_two_seconds(target: Seq<char>, sent: u64, now: u64, came: bool)
    ensures
        waited(target, sent, Some(target), true, now) == Waited::Take,
        waited(target, sent, Some(target), false, now) == if now - sent >= 2_000_000_000 {
            Waited::GiveUp
        } else {
            Waited::Keep
        },
        waited(target, sent, None, came, now) == Waited::Drop,
        text_of(field(still_asked(), "format"@)) == Some("png"@),
        text_of(field(named_target(target), "targetId"@)) == Some(target),
        text_of(field(named_url(target), "url"@)) == Some(target),
        field(switched_on(target), target) == Some(Value::Bool(true)),
{
    let (a, b, c, d) = (
        still_asked()->Record_0,
        named_target(target)->Record_0,
        named_url(target)->Record_0,
        switched_on(target)->Record_0,
    );
    assert(a[0].0 == "format"@ && b[0].0 == "targetId"@ && c[0].0 == "url"@ && d[0].0 == target);
    lemma_each_is_found(a);
    lemma_each_is_found(b);
    lemma_each_is_found(c);
    lemma_each_is_found(d);
}

/// A picture is what the engine sent, decoded.
pub proof fn law_a_picture_is_what_was_sent(bytes: Seq<u8>, text: Seq<char>, reply: Value, why: Seq<char>)
    requires
        utf8(text) == encoded(bytes),
        text_of(field(reply, "data"@)) == Some(text),
    ensures
        picture_of(Echo::Came(reply)) == Some(bytes),
        picture_of(Echo::Refused(why)) is None,
        picture_of(Echo::Nothing) is None,
{
    law_decoding_undoes_encoding(bytes);
}

/// On the way out the pane is left first, an engine whose profile is kept is asked
/// to close and waited for, and every engine is ended before what it left is
/// taken away.
pub proof fn law_an_engine_with_a_profile_is_asked_to_close(temporary: bool)
    ensures
        leaving_of(temporary)[0] == Farewell::LeavePane,
        leaving_of(temporary).contains(Farewell::CloseEngine) <==> !temporary,
        leaving_of(temporary).contains(Farewell::WaitForEngine) <==> !temporary,
        !temporary ==> leaving_of(false)[3] == Farewell::CloseEngine && leaving_of(false)[4]
            == Farewell::WaitForEngine,
        leaving_of(temporary).contains(Farewell::DropTabs),
        leaving_of(temporary).contains(Farewell::CloseConnection),
{
    let all = leaving_of(temporary);
    assert(all[1] == Farewell::DropTabs && all[2] == Farewell::CancelDownloads);
    if temporary {
        assert(all.len() == 6);
        assert(all[3] == Farewell::CloseConnection && all[4] == Farewell::KillEngine && all[5]
            == Farewell::RemovePartials);
    } else {
        assert(all[3] == Farewell::CloseEngine && all[4] == Farewell::WaitForEngine);
        assert(all[5] == Farewell::CloseConnection);
    }
}

}
