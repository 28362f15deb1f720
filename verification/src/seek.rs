//! The search that the find prompt has out with the page.
//!
//! One search is out at a time, so that the answers arrive in the order the
//! keys were typed. Keys typed while one is out fold into the next. A world that
//! went with its document is made again once, and the search asked again; a
//! second time is reported.
use vstd::prelude::*;

use crate::find::{
    call_of, call_params, matches_of, stale_world, walked, wish, Ask,
    Finder, Matches, Wish,
};
use crate::json::{Json, Value};
use crate::line::Typing;
use crate::strings::holds;

verus! {

/// How long a search gets before the row gives up on it, in nanoseconds.
pub const FIND_TIMEOUT: u64 = 5_000_000_000;

/// What the row says of a search that was given up on.
pub const NO_ANSWER: &'static str = "the page did not answer the search";

/// A search that is out with the engine: the ticket its answer will bear, what
/// it asked, and when it went.
#[derive(Debug, PartialEq, Eq)]
pub struct Search {
    pub ticket: i64,
    pub ask: Ask,
    pub sent: u64,
}

/// The find prompt while it is open, and the page it is searching.
#[derive(Debug, PartialEq, Eq)]
pub struct Find {
    pub target: String,
    pub finder: Finder,
    /// The world the script runs in, once made for this document; `None` for a
    /// page that did not answer when it was asked for one.
    pub context: Option<i64>,
    pub pending: Option<Search>,
    /// What to ask next, once the answer is in.
    pub wanted: Option<Ask>,
    /// Whether a world that went with its document has already been made again
    /// for this ask.
    pub remade: bool,
}

/// What a [`Find`] is.
#[verifier::ext_equal]
pub struct Hunt {
    pub target: Seq<char>,
    pub line: Typing,
    pub matches: Option<Matches>,
    pub context: Option<i64>,
    pub pending: Option<(i64, Wish, u64)>,
    pub wanted: Option<Wish>,
    pub remade: bool,
}

/// What a search that is out is.
pub open spec fn out(search: Option<Search>) -> Option<(i64, Wish, u64)> {
    match search {
        Some(s) => Some((s.ticket, s.ask@, s.sent)),
        None => None,
    }
}

impl View for Find {
    type V = Hunt;

    open spec fn view(&self) -> Hunt {
        Hunt {
            target: self.target@,
            line: self.finder.line@,
            matches: self.finder.matches,
            context: self.context,
            pending: out(self.pending),
            wanted: wish(self.wanted),
            remade: self.remade,
        }
    }
}

/// What the mailbox had under a search's ticket.
#[derive(Debug, PartialEq, Eq)]
pub enum Reply {
    /// Nothing yet.
    Nothing,
    Came(Json),
    Refused(String),
}

/// What a [`Reply`] is.
pub enum Echo {
    Nothing,
    Came(Value),
    Refused(Seq<char>),
}

impl View for Reply {
    type V = Echo;

    open spec fn view(&self) -> Echo {
        match *self {
            Reply::Nothing => Echo::Nothing,
            Reply::Came(reply) => Echo::Came(reply@),
            Reply::Refused(why) => Echo::Refused(why@),
        }
    }
}

/// What a look at the mailbox came to.
#[derive(Debug, PartialEq, Eq)]
pub enum Pumped {
    /// Nothing to draw.
    Quiet,
    /// The row is to be drawn again.
    Changed,
    /// A sentence for the page's row, which is to be drawn again.
    Note(String),
    /// The world has gone with its document: make it again.
    Remake,
}

/// What a [`Pumped`] is.
pub enum Drawn {
    Quiet,
    Changed,
    Note(Seq<char>),
    Remake,
}

impl View for Pumped {
    type V = Drawn;

    open spec fn view(&self) -> Drawn {
        match *self {
            Pumped::Quiet => Drawn::Quiet,
            Pumped::Changed => Drawn::Changed,
            Pumped::Note(s) => Drawn::Note(s@),
            Pumped::Remake => Drawn::Remake,
        }
    }
}

/// What is to be sent next.
#[derive(Debug, PartialEq, Eq)]
pub enum Next {
    /// Nothing: nothing is wanted, or a search is out.
    Nothing,
    /// A search, by its parameters.
    Send(Json),
    /// There is no world to search in.
    NoWorld,
}

/// What a [`Next`] is.
pub enum Coming {
    Nothing,
    Send(Value),
    NoWorld,
}

impl View for Next {
    type V = Coming;

    open spec fn view(&self) -> Coming {
        match *self {
            Next::Nothing => Coming::Nothing,
            Next::Send(params) => Coming::Send(params@),
            Next::NoWorld => Coming::NoWorld,
        }
    }
}

/// What went wrong says that the world has gone.
pub open spec fn is_stale(why: Seq<char>) -> bool {
    holds(why, "Cannot find context with specified id"@)
}

impl Hunt {
    /// A wish folded into what is waiting to be sent.
    pub open spec fn wanting(self, ask: Wish) -> Hunt {
        Hunt {
            wanted: Some(
                match self.wanted {
                    Some(older) => older.merged(ask),
                    None => ask,
                },
            ),
            ..self
        }
    }

    /// A look at the mailbox: the prompt after it, and what it came to.
    ///
    /// A page stopped behind a dialog answers when it has been answered: the
    /// wait for the person is not the page's, so the clock starts again.
    pub open spec fn collected(self, reply: Echo, stopped: bool, now: u64) -> (Hunt, Drawn) {
        match self.pending {
            None => (self, Drawn::Quiet),
            Some((ticket, ask, sent)) => match reply {
                Echo::Nothing => if stopped {
                    (Hunt { pending: Some((ticket, ask, now)), ..self }, Drawn::Quiet)
                } else if now < sent || now - sent < FIND_TIMEOUT {
                    (self, Drawn::Quiet)
                } else {
                    (Hunt { pending: None, remade: false, ..self }, Drawn::Note(NO_ANSWER@))
                },
                Echo::Came(reply) => (
                    Hunt {
                        pending: None,
                        matches: matches_of(reply),
                        remade: false,
                        ..self
                    },
                    Drawn::Changed,
                ),
                Echo::Refused(why) => if is_stale(why) && !self.remade {
                    (
                        Hunt {
                            pending: None,
                            remade: true,
                            wanted: Some(
                                match self.wanted {
                                    Some(newer) => ask.merged(newer),
                                    None => ask,
                                },
                            ),
                            ..self
                        },
                        Drawn::Remake,
                    )
                } else {
                    (Hunt { pending: None, remade: false, ..self }, Drawn::Note(why))
                },
            },
        }
    }

    /// What is to be sent next.
    pub open spec fn next(self) -> Coming {
        match self.wanted {
            Some(ask) => if self.pending is Some {
                Coming::Nothing
            } else {
                match self.context {
                    Some(context) => Coming::Send(call_of(context, ask)),
                    None => Coming::NoWorld,
                }
            },
            None => Coming::Nothing,
        }
    }

    /// What is wanted has gone, with a ticket, or it did not go.
    pub open spec fn sent(self, ticket: Option<i64>, now: u64) -> Hunt {
        Hunt {
            wanted: None,
            pending: match (ticket, self.wanted) {
                (Some(ticket), Some(ask)) => Some((ticket, ask, now)),
                _ => self.pending,
            },
            remade: self.remade && ticket is Some,
            ..self
        }
    }
}

impl Find {
    /// The line can be typed into.
    pub open spec fn wf(self) -> bool {
        self.finder.wf()
    }

    /// The prompt on a page, offering the last needle, and the search for it
    /// that goes at once.
    pub fn open(target: &str, last_needle: &str, context: Option<i64>) -> (r: Find)
        ensures
            r.wf(),
            r@ == opened(target@, last_needle@, context),
    {
        let finder = Finder::open(last_needle);
        let wanted = finder.initial();
        let r = Find {
            target: target.to_owned(),
            finder,
            context,
            pending: None,
            wanted,
            remade: false,
        };
        proof {
            assert(r@ =~= opened(target@, last_needle@, context));
        }
        r
    }

    /// Fold `ask` into whatever is waiting to be sent.
    pub fn want(&mut self, ask: Ask)
        requires
            old(self).wf(),
        ensures
            final(self).wf(),
            final(self)@ == old(self)@.wanting(ask@),
    {
        let mut older: Option<Ask> = None;
        std::mem::swap(&mut older, &mut self.wanted);
        self.wanted = Some(
            match older {
                Some(older) => older.merge(ask),
                None => ask,
            },
        );
        proof {
            assert(self@ =~= old(self)@.wanting(ask@));
        }
    }

    /// Take the answer to the search that is out, if it has come.
    pub fn collect(&mut self, reply: &Reply, stopped: bool, now: u64) -> (r: Pumped)
        requires
            old(self).wf(),
        ensures
            final(self).wf(),
            (final(self)@, r@) == old(self)@.collected(reply@, stopped, now),
    {
        let mut pending: Option<Search> = None;
        std::mem::swap(&mut pending, &mut self.pending);
        let search = match pending {
            Some(search) => search,
            None => return Pumped::Quiet,
        };
        match reply {
            Reply::Nothing => if stopped {
                self.pending = Some(Search { ticket: search.ticket, ask: search.ask, sent: now });
                proof {
                    assert(self@ =~= old(self)@.collected(reply@, stopped, now).0);
                }
                Pumped::Quiet
            } else if now < search.sent || now - search.sent < FIND_TIMEOUT {
                self.pending = Some(search);
                proof {
                    assert(self@ =~= old(self)@);
                }
                Pumped::Quiet
            } else {
                self.remade = false;
                Pumped::Note(NO_ANSWER.to_owned())
            },
            Reply::Came(reply) => {
                self.finder.matches = crate::find::matches(reply);
                self.remade = false;
                Pumped::Changed
            },
            Reply::Refused(why) => if stale_world(why.as_str()) && !self.remade {
                self.remade = true;
                let mut newer: Option<Ask> = None;
                std::mem::swap(&mut newer, &mut self.wanted);
                self.wanted = Some(
                    match newer {
                        Some(newer) => search.ask.merge(newer),
                        None => search.ask,
                    },
                );
                proof {
                    assert(self@ =~= old(self)@.collected(Echo::Refused(why@), stopped, now).0);
                }
                Pumped::Remake
            } else {
                self.remade = false;
                Pumped::Note(why.clone())
            },
        }
    }

    /// What is to be sent next, when nothing is out.
    pub fn next(&self) -> (r: Next)
        ensures
            r@ == self@.next(),
    {
        if self.pending.is_some() {
            return Next::Nothing;
        }
        match &self.wanted {
            Some(ask) => match self.context {
                Some(context) => Next::Send(call_params(context, ask)),
                None => Next::NoWorld,
            },
            None => Next::Nothing,
        }
    }

    /// What was wanted has been sent, under a ticket, or it could not be: in
    /// either case it is wanted no more.
    pub fn sent(&mut self, ticket: Option<i64>, now: u64)
        requires
            old(self).wf(),
        ensures
            final(self).wf(),
            final(self)@ == old(self)@.sent(ticket, now),
    {
        let mut asked: Option<Ask> = None;
        std::mem::swap(&mut asked, &mut self.wanted);
        match (ticket, asked) {
            (Some(ticket), Some(ask)) => {
                self.pending = Some(Search { ticket, ask, sent: now });
            },
            (Some(_), None) => {},
            (None, _) => self.remade = false,
        }
        proof {
            assert(self@ =~= old(self)@.sent(ticket, now));
        }
    }
}

/// A prompt that has just been opened.
pub open spec fn opened(target: Seq<char>, last_needle: Seq<char>, context: Option<i64>) -> Hunt {
    let line = Typing {
        text: last_needle,
        cursor: last_needle.len() as int,
        whole: last_needle.len() > 0,
        hint: Seq::empty(),
    };
    Hunt {
        target,
        line,
        matches: None,
        context,
        pending: None,
        wanted: walked(line, 0),
        remade: false,
    }
}

// ---- laws ----

/// While a search is out nothing else is sent: the answers come in the order
/// the keys were typed.
pub proof fn law_one_search_is_out_at_a_time(h: Hunt)
    requires
        h.pending is Some,
    ensures
        h.next() == Coming::Nothing,
{
}

/// What is sent is what is wanted, and once it has gone it is not sent again.
pub proof fn law_what_is_wanted_goes_once(h: Hunt, context: i64, ask: Wish, ticket: i64, now: u64)
    requires
        h.pending is None,
        h.context == Some(context),
        h.wanted == Some(ask),
    ensures
        h.next() == Coming::Send(call_of(context, ask)),
        h.sent(Some(ticket), now).pending == Some((ticket, ask, now)),
        h.sent(Some(ticket), now).next() == Coming::Nothing,
        h.sent(None, now).next() == Coming::Nothing,
{
}

/// A page that keeps losing its world is reported rather than chased: the world
/// is made again once, and the second refusal is a sentence. The next search
/// may have it made again once.
pub proof fn law_a_world_is_remade_once(h: Hunt, why: Seq<char>, stopped: bool, now: u64)
    requires
        h.pending is Some,
        h.remade,
    ensures
        h.collected(Echo::Refused(why), stopped, now).1 == Drawn::Note(why),
        !h.collected(Echo::Refused(why), stopped, now).0.remade,
{
}

/// The needle that was asked for is asked for again in a world made again, with
/// what was typed since folded in.
pub proof fn law_a_remade_world_is_asked_again(
    h: Hunt,
    ticket: i64,
    ask: Wish,
    sent: u64,
    why: Seq<char>,
    stopped: bool,
    now: u64,
)
    requires
        h.pending == Some((ticket, ask, sent)),
        !h.remade,
        h.wanted is None,
        is_stale(why),
    ensures
        h.collected(Echo::Refused(why), stopped, now).0.wanted == Some(ask),
        h.collected(Echo::Refused(why), stopped, now).1 == Drawn::Remake,
{
}

/// The clock does not run while the page is stopped behind a dialog.
pub proof fn law_a_stopped_page_is_waited_for(h: Hunt, now: u64)
    requires
        h.pending is Some,
    ensures
        h.collected(Echo::Nothing, true, now).0.pending is Some,
        h.collected(Echo::Nothing, true, now).1 == Drawn::Quiet,
{
}

/// Two wishes that are wanted one after the other are wanted as one, folded.
pub proof fn law_keys_typed_while_waiting_are_one_search(h: Hunt, a: Wish, b: Wish)
    requires
        h.wanted is None,
    ensures
        h.wanting(a).wanting(b).wanted == Some(a.merged(b)),
{
}

/// An answer is taken as it came, a search that is not answered is given up after
/// five seconds and not before, and a refusal is said.
pub proof fn law_a_search_is_answered_or_given_up(
    h: Hunt,
    ticket: i64,
    ask: Wish,
    sent: u64,
    now: u64,
    reply: Value,
    why: Seq<char>,
    stopped: bool,
)
    requires
        h.pending == Some((ticket, ask, sent)),
    ensures
        h.collected(Echo::Came(reply), stopped, now) == (
            Hunt { pending: None, matches: matches_of(reply), remade: false, ..h },
            Drawn::Changed,
        ),
        now - sent < 5_000_000_000 ==> h.collected(Echo::Nothing, false, now) == (h, Drawn::Quiet),
        now - sent >= 5_000_000_000 ==> {
            &&& h.collected(Echo::Nothing, false, now).0.pending is None
            &&& h.collected(Echo::Nothing, false, now).1 is Note
        },
        !is_stale(why) ==> h.collected(Echo::Refused(why), stopped, now).1 == Drawn::Note(why),
        h.collected(Echo::Refused(why), stopped, now).0.pending is None,
        h.collected(Echo::Nothing, true, now).0.pending == Some((ticket, ask, now)),
{
}

/// A search starts with what was last looked for, all of it to be typed over, and
/// looks for it at once.
pub proof fn law_a_search_starts_with_the_last_needle(
    target: Seq<char>,
    needle: Seq<char>,
    context: Option<i64>,
)
    ensures
        opened(target, needle, context).target == target,
        opened(target, needle, context).line.text == needle,
        opened(target, needle, context).line.whole <==> needle.len() > 0,
        opened(target, needle, context).context == context,
        opened(target, needle, context).wanted == if needle.len() == 0 {
            None
        } else {
            Some(Wish { needle, step: 0 })
        },
        needle.len() > 0 && context is None ==> opened(target, needle, context).next()
            == Coming::NoWorld,
{
}

}
