//! The url bar: a line being typed, and the pages visited that it offers back.
use vstd::prelude::*;

use crate::clipboard::{one_line, plain_only};
use crate::dialog::{Dialog, Kind, Question};
use crate::history::{completion, matching, urls_of, History, Page, Stroll, Walk};
use crate::input::{Key, KeyAction, KeyInput};
use crate::line::{Edit, Line, Typing};
use crate::strings::{is_blank, same};

verus! {

/// The url bar while it is open.
#[derive(Debug, PartialEq, Eq)]
pub struct UrlBar {
    pub line: Line,
    /// Up and Down in progress through the history.
    pub walk: Option<Walk>,
}

/// What a [`UrlBar`] is.
#[verifier::ext_equal]
pub struct Bar {
    pub line: Typing,
    pub walk: Option<Stroll>,
}

/// What an optional walk is.
pub open spec fn strolled(walk: Option<Walk>) -> Option<Stroll> {
    match walk {
        Some(w) => Some(w@),
        None => None,
    }
}

impl View for UrlBar {
    type V = Bar;

    open spec fn view(&self) -> Bar {
        Bar { line: self.line@, walk: strolled(self.walk) }
    }
}

/// A line with the rest of what is being typed offered, or nothing.
pub open spec fn suggested(line: Typing, rest: Option<Seq<char>>) -> Typing {
    Typing {
        hint: match rest {
            Some(rest) => if line.cursor == line.text.len() {
                rest
            } else {
                Seq::empty()
            },
            None => Seq::empty(),
        },
        ..line
    }
}

/// A line with a text put in it whole, the cursor at its end.
pub open spec fn holding(text: Seq<char>) -> Typing {
    Typing { text, cursor: text.len() as int, whole: false, hint: Seq::empty() }
}

impl Bar {
    /// The walk that goes on, or one that starts from what is typed.
    pub open spec fn walking(self, line: Typing, visited: Seq<Page>) -> Stroll {
        match self.walk {
            Some(w) => w,
            None => Stroll {
                typed: line.text,
                urls: urls_of(matching(visited, line.text)),
                height: 0,
            },
        }
    }

    /// What one key does to the bar, given the pages visited: the bar after it,
    /// and what it was.
    ///
    /// Text that goes in ends the walk and asks for a suggestion, and nothing
    /// else does; Up and Down walk; and an edit that changes the text ends the
    /// walk.
    pub open spec fn stepped(self, visited: Seq<Page>, key: KeyInput) -> (Bar, Edit) {
        let (line, edit) = self.line.stepped(key);
        let walk = self.walking(line, visited);
        let bar = match edit {
            Edit::Inserted => Bar {
                line: suggested(line, completion(visited, line.text)),
                walk: None,
            },
            Edit::Previous => Bar {
                line: if walk.height < walk.urls.len() {
                    holding(walk.higher().here())
                } else {
                    line
                },
                walk: Some(walk.higher()),
            },
            Edit::Next => Bar {
                line: if walk.height > 0 {
                    holding(walk.lower().here())
                } else {
                    line
                },
                walk: Some(walk.lower()),
            },
            Edit::Typing => if line.text != self.line.text {
                Bar { line, walk: None }
            } else {
                Bar { line, walk: self.walk }
            },
            _ => Bar { line, walk: self.walk },
        };
        (bar, edit)
    }

    /// The bar with a paste in it: as a typed character does, it ends the walk
    /// and asks for a suggestion.
    pub open spec fn pasted(self, visited: Seq<Page>, text: Seq<char>) -> Bar {
        let (line, changed) = pasted_line(self.line, text);
        if changed {
            Bar { line: suggested(line, completion(visited, line.text)), walk: None }
        } else {
            self
        }
    }
}

impl UrlBar {
    /// The line can be typed into, and the walk stands on something.
    pub open spec fn wf(self) -> bool {
        &&& self.line.wf()
        &&& (self.walk matches Some(w) ==> w.wf())
    }

    /// The bar with a line in it, and no walk.
    pub fn new(line: Line) -> (r: UrlBar)
        requires
            line.wf(),
        ensures
            r.wf(),
            r@ == (Bar { line: line@, walk: None }),
    {
        UrlBar { line, walk: None }
    }

    /// Offer what the pages visited go on to from what is typed.
    fn offer(&mut self, history: &History)
        requires
            old(self).line.wf(),
        ensures
            final(self).wf(),
            final(self)@ == (Bar {
                line: suggested(old(self).line@, completion(history@, old(self).line@.text)),
                walk: None,
            }),
    {
        self.walk = None;
        let rest = history.complete(self.line.text());
        self.line.suggest(rest);
    }

    /// One step of the walk through the pages visited, older or newer.
    fn walk_on(&mut self, history: &History, older: bool)
        requires
            old(self).wf(),
        ensures
            final(self).wf(),
            ({
                let walk = old(self)@.walking(old(self).line@, history@);
                let there = if older {
                    walk.higher()
                } else {
                    walk.lower()
                };
                final(self)@ == (Bar {
                    line: if there.height != walk.height {
                        holding(there.here())
                    } else {
                        old(self).line@
                    },
                    walk: Some(there),
                })
            }),
    {
        let mut kept: Option<Walk> = None;
        std::mem::swap(&mut kept, &mut self.walk);
        let mut walk = match kept {
            Some(walk) => walk,
            None => Walk::new(history, self.line.text()),
        };
        let moved = if older {
            walk.up()
        } else {
            walk.down()
        };
        match moved {
            Some(url) => self.line.set_text(url.as_str()),
            None => {},
        }
        self.walk = Some(walk);
    }
}

/// What one key does to the url bar, given the pages visited.
///
/// A suggestion is asked for when text went in and at no other time: one made
/// again after a backspace is one the backspace cannot delete.
pub fn bar_step(bar: &mut UrlBar, history: &History, key: &KeyInput) -> (r: Edit)
    requires
        old(bar).wf(),
    ensures
        final(bar).wf(),
        (final(bar)@, r) == old(bar)@.stepped(history@, *key),
{
    let before = bar.line.text().to_owned();
    let edit = bar.line.step(key);
    match edit {
        Edit::Inserted => bar.offer(history),
        Edit::Previous => bar.walk_on(history, true),
        Edit::Next => bar.walk_on(history, false),
        Edit::Typing => if !same(bar.line.text(), before.as_str()) {
            bar.walk = None;
        },
        _ => {},
    }
    edit
}

// ---- pastes ----

/// A line with a paste in it, and whether there was anything to put in: what is
/// kept of it is one line, at the cursor, over a line offered whole.
pub open spec fn pasted_line(line: Typing, text: Seq<char>) -> (Typing, bool) {
    let kept = plain_only(text);
    if kept.len() > 0 {
        (line.inserted(kept), true)
    } else {
        (line, false)
    }
}

/// A paste into a line being typed. One that is nothing once it is one line
/// changes nothing, the selection included, and says so.
pub fn paste_into_line(line: &mut Line, text: &str) -> (r: bool)
    requires
        old(line).wf(),
    ensures
        final(line).wf(),
        (final(line)@, r) == pasted_line(old(line)@, text@),
{
    let text = one_line(text);
    if is_blank(text.as_str()) {
        return false;
    }
    line.insert_str(text.as_str())
}

/// A dialog with a paste in it, and whether it takes one: only a prompt does.
pub open spec fn pasted_question(q: Question, text: Seq<char>) -> (Question, bool) {
    if q.kind == Kind::Prompt {
        (Question { line: pasted_line(q.line, text).0, ..q }, true)
    } else {
        (q, false)
    }
}

/// A paste into a dialog: into its line if it is a `prompt()`, and `false`,
/// with nothing changed, for every other kind.
pub fn paste_into_dialog(dialog: &mut Dialog, text: &str) -> (r: bool)
    requires
        old(dialog).wf(),
    ensures
        final(dialog).wf(),
        (final(dialog)@, r) == pasted_question(old(dialog)@, text@),
{
    if !dialog.typing() {
        return false;
    }
    let _ = paste_into_line(&mut dialog.line, text);
    proof {
        assert(dialog@ =~= pasted_question(old(dialog)@, text@).0);
    }
    true
}

/// A paste into the url bar: as a typed character does, it ends the walk
/// through the pages visited and asks again for what there is to take.
pub fn paste_into_bar(bar: &mut UrlBar, history: &History, text: &str)
    requires
        old(bar).wf(),
    ensures
        final(bar).wf(),
        final(bar)@ == old(bar)@.pasted(history@, text@),
{
    if paste_into_line(&mut bar.line, text) {
        bar.offer(history);
    }
}

// ---- laws ----

/// An edit that changes the text ends the walk, so that the next Up walks what
/// is there now; text that goes in always does.
pub proof fn law_an_edit_ends_the_walk(bar: Bar, visited: Seq<Page>, key: KeyInput)
    requires
        bar.stepped(visited, key).1 != Edit::Previous,
        bar.stepped(visited, key).1 != Edit::Next,
    ensures
        bar.stepped(visited, key).0.line.text != bar.line.text ==> bar.stepped(
            visited,
            key,
        ).0.walk is None,
        bar.stepped(visited, key).1 == Edit::Inserted ==> bar.stepped(visited, key).0.walk is None,
{
}

/// What a walk puts in the bar has nothing offered after it.
pub proof fn law_nothing_is_offered_while_walking(bar: Bar, visited: Seq<Page>, key: KeyInput)
    requires
        bar.stepped(visited, key).1 == Edit::Previous || bar.stepped(visited, key).1 == Edit::Next,
        bar.stepped(visited, key).0.line.text != bar.line.stepped(key).0.text,
    ensures
        bar.stepped(visited, key).0.line.hint == Seq::<char>::empty(),
{
}

/// Down after an Up puts back what was typed.
pub proof fn law_down_puts_back_what_was_typed(
    bar: Bar,
    visited: Seq<Page>,
    up: KeyInput,
    down: KeyInput,
)
    requires
        bar.walk is None,
        up.key == Key::Up,
        up.action != KeyAction::Release,
        down.key == Key::Down,
        down.action != KeyAction::Release,
    ensures
        bar.stepped(visited, up).0.stepped(visited, down).0.line.text == bar.line.text,
{
    let walk = bar.walking(bar.line, visited);
    if walk.urls.len() > 0 {
        assert(walk.higher().lower() =~= walk);
    }
}

/// A paste leaves the question as it was asked, and no dialog but a prompt takes
/// it at all.
pub proof fn law_a_paste_is_no_enter(q: Question, text: Seq<char>)
    ensures
        pasted_question(q, text).0.kind == q.kind,
        pasted_question(q, text).0.message == q.message,
        q.kind != Kind::Prompt ==> pasted_question(q, text) == (q, false),
{
}

/// What is typed at the end of the line is finished from the pages that were
/// seen, and what is typed in the middle of it is not.
pub proof fn law_typing_offers_the_rest(bar: Bar, visited: Seq<Page>, key: KeyInput)
    requires
        bar.stepped(visited, key).1 == Edit::Inserted,
    ensures
        ({
            let line = bar.stepped(visited, key).0.line;
            &&& line.text == bar.line.stepped(key).0.text
            &&& line.hint == if line.cursor == line.text.len() && completion(
                visited,
                line.text,
            ) is Some {
                completion(visited, line.text)->Some_0
            } else {
                Seq::empty()
            }
        }),
{
}

/// Looking up goes through the pages that match what was typed, the first of
/// them first, and stays at the last.
pub proof fn law_up_goes_through_what_matches(bar: Bar, visited: Seq<Page>, up: KeyInput)
    requires
        up.key == Key::Up,
        up.action != KeyAction::Release,
        bar.walk is None,
    ensures
        ({
            let urls = urls_of(matching(visited, bar.line.text));
            let once = bar.stepped(visited, up).0;
            let twice = once.stepped(visited, up).0;
            &&& urls.len() == 0 ==> once.line == bar.line
            &&& urls.len() > 0 ==> once.line.text == urls[0]
            &&& urls.len() == 1 ==> twice.line.text == urls[0]
            &&& urls.len() > 1 ==> twice.line.text == urls[1]
            &&& once.walk matches Some(w) && w.typed == bar.line.text
        }),
{
}

/// What is pasted goes in as one piece, plain, and nothing plain is nothing.
pub proof fn law_a_paste_goes_in_at_the_cursor(line: Typing, text: Seq<char>)
    requires
        line.valid(),
    ensures
        ({
            let kept = plain_only(text);
            let (after, changed) = pasted_line(line, text);
            &&& changed <==> kept.len() > 0
            &&& !changed ==> after == line
            &&& changed && !line.whole ==> after.text == line.text.take(line.cursor) + kept
                + line.text.skip(line.cursor) && after.cursor == line.cursor + kept.len()
            &&& changed && line.whole ==> after.text == kept && after.cursor == kept.len()
        }),
{
}

}
