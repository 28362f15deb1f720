//! A page's `alert`, `confirm`, `prompt` and "leave this page?", on the status
//! row: a sentence, the keys that answer it and, for a `prompt()`, a line being
//! typed into.
//!
//! Until the engine is told what the person said the page does nothing at all,
//! so a dialog is neither left for later nor answered for them.
use vstd::prelude::*;

use crate::input::{Key, KeyAction, KeyInput};
use crate::json::{field, record_of, text_of, Json, Value};
use crate::line::{Edit, Line, Typing};
use crate::strings::{is_blank, is_control, is_control_char, is_space, is_space_char, same};

verus! {

/// Which of the four questions a page can ask.
#[derive(Debug, Clone, Copy, PartialEq, Eq, Structural)]
pub enum Kind {
    /// `alert()`: something to be read, and nothing to decide.
    Alert,
    /// `confirm()`: yes or no.
    Confirm,
    /// `prompt()`: a line of text, or nothing.
    Prompt,
    /// A `beforeunload` handler that asked: stay on this page, or leave it.
    BeforeUnload,
}

/// A dialog a page has open, waiting on the person.
#[derive(Debug, PartialEq, Eq)]
pub struct Dialog {
    pub kind: Kind,
    /// What the page asked, exactly as it asked it.
    pub message: String,
    /// The page that asked, which is not always the page in front: an iframe
    /// can call `alert()` too.
    pub url: String,
    /// What is being typed into a `prompt()`, starting with what the page
    /// offered. Empty and unused for every other kind.
    pub line: Line,
}

/// What a key did to a dialog.
#[derive(Debug, Clone, Copy, PartialEq, Eq, Structural)]
pub enum Answer {
    /// Nothing decided yet.
    Waiting,
    /// OK, yes, leave.
    Accept,
    /// Cancel, no, stay.
    Dismiss,
    /// `ctrl+q`, which leaves the page unanswered.
    Quit,
}

/// What a [`Dialog`] is.
#[verifier::ext_equal]
pub struct Question {
    pub kind: Kind,
    pub message: Seq<char>,
    pub url: Seq<char>,
    pub line: Typing,
}

impl View for Dialog {
    type V = Question;

    open spec fn view(&self) -> Question {
        Question { kind: self.kind, message: self.message@, url: self.url@, line: self.line@ }
    }
}

/// The kind that the protocol has this name for.
pub open spec fn kind_named(name: Seq<char>) -> Option<Kind> {
    if name == "alert"@ {
        Some(Kind::Alert)
    } else if name == "confirm"@ {
        Some(Kind::Confirm)
    } else if name == "prompt"@ {
        Some(Kind::Prompt)
    } else if name == "beforeunload"@ {
        Some(Kind::BeforeUnload)
    } else {
        None
    }
}

/// The text under `name`, empty when there is none.
pub open spec fn text_or_empty(v: Value, name: Seq<char>) -> Seq<char> {
    match text_of(field(v, name)) {
        Some(s) => s,
        None => Seq::empty(),
    }
}

/// The question in a `Page.javascriptDialogOpening`, when it is of a kind that
/// has keys to answer it.
pub open spec fn question(params: Value) -> Option<Question> {
    match text_of(field(params, "type"@)) {
        Some(name) => match kind_named(name) {
            Some(kind) => {
                let offered = text_or_empty(params, "defaultPrompt"@);
                Some(
                    Question {
                        kind,
                        message: text_or_empty(params, "message"@),
                        url: text_or_empty(params, "url"@),
                        line: if kind == Kind::Prompt {
                            Typing {
                                text: offered,
                                cursor: offered.len() as int,
                                whole: true,
                                hint: Seq::empty(),
                            }
                        } else {
                            Typing { text: Seq::empty(), cursor: 0, whole: false, hint: Seq::empty() }
                        },
                    },
                )
            },
            None => None,
        },
        None => None,
    }
}

/// A character that is no part of a sentence on one row: white space, or a
/// control character.
pub open spec fn is_gap(c: char) -> bool {
    is_space(c) || is_control(c)
}

/// A text with every run of gaps as one space, and none at its ends.
pub open spec fn closed_up(s: Seq<char>) -> Seq<char>
    decreases s.len(),
{
    if s.len() == 0 {
        Seq::empty()
    } else {
        let before = closed_up(s.drop_last());
        if is_gap(s.last()) {
            before
        } else if before.len() > 0 && is_gap(s[s.len() - 2]) {
            before.push(' ').push(s.last())
        } else {
            before.push(s.last())
        }
    }
}

impl Question {
    /// What a key does: the question after it, and what it decided.
    pub open spec fn stepped(self, key: KeyInput) -> (Question, Answer) {
        if key.action == KeyAction::Release || key.key is Other {
            (self, Answer::Waiting)
        } else if key.key == Key::Char('q') && key.mods.has_ctrl() {
            (self, Answer::Quit)
        } else {
            match self.kind {
                Kind::Alert => (self, Answer::Accept),
                Kind::Prompt => {
                    let (line, edit) = self.line.stepped(key);
                    (
                        Question { line, ..self },
                        match edit {
                            Edit::Go => Answer::Accept,
                            Edit::Cancel => Answer::Dismiss,
                            Edit::Quit => Answer::Quit,
                            _ => Answer::Waiting,
                        },
                    )
                },
                _ => (self, yes_or_no(key)),
            }
        }
    }

    /// The parameters of the `Page.handleJavaScriptDialog` that answers it.
    pub open spec fn replied(self, answer: Answer) -> Value {
        let accept = answer == Answer::Accept;
        let said = seq![("accept"@, Value::Bool(accept))];
        Value::Record(
            if accept && self.kind == Kind::Prompt {
                said.push(("promptText"@, Value::Text(self.line.text)))
            } else {
                said
            },
        )
    }

    /// The question, as one line of text.
    pub open spec fn caption(self) -> Seq<char> {
        let message = closed_up(self.message);
        match self.kind {
            Kind::Alert => if message.len() == 0 {
                "alert"@
            } else {
                "alert: "@ + message
            },
            Kind::BeforeUnload => if message.len() == 0 {
                "leave this page?"@
            } else {
                "leave this page? "@ + message
            },
            _ => message,
        }
    }
}

/// What a key says to a question that is answered with yes or no.
pub open spec fn yes_or_no(key: KeyInput) -> Answer {
    let bare = !key.mods.has_ctrl() && !key.mods.has_alt();
    match key.key {
        Key::Enter => Answer::Accept,
        Key::Escape => Answer::Dismiss,
        Key::Char(c) => if bare && (c == 'y' || c == 'Y') {
            Answer::Accept
        } else if bare && (c == 'n' || c == 'N') {
            Answer::Dismiss
        } else {
            Answer::Waiting
        },
        _ => Answer::Waiting,
    }
}

/// The text under `name`, empty when there is none.
fn text_under<'a>(params: &'a Json, name: &str) -> (r: &'a str)
    ensures
        r@ == text_or_empty(params@, name@),
{
    match params.text_at(name) {
        Some(s) => s,
        None => {
            proof {
                reveal_strlit("");
                assert(""@ =~= Seq::<char>::empty());
            }
            ""
        },
    }
}

impl Clone for Dialog {
    fn clone(&self) -> (r: Dialog)
        ensures
            r@ == self@,
    {
        Dialog {
            kind: self.kind,
            message: self.message.clone(),
            url: self.url.clone(),
            line: self.line.clone(),
        }
    }
}

impl Dialog {
    /// The line can be typed into.
    pub open spec fn wf(self) -> bool {
        self.line.wf()
    }

    /// Read a `Page.javascriptDialogOpening`.
    ///
    /// `None` for a type there is no answer for: a row that showed one would be
    /// a page stopped behind a sentence nobody can get rid of.
    pub fn opening(params: &Json) -> (r: Option<Dialog>)
        ensures
            match r {
                Some(d) => d.wf() && question(params@) == Some(d@),
                None => question(params@) is None,
            },
    {
        let kind = match params.text_at("type") {
            Some(name) => if same(name, "alert") {
                Kind::Alert
            } else if same(name, "confirm") {
                Kind::Confirm
            } else if same(name, "prompt") {
                Kind::Prompt
            } else if same(name, "beforeunload") {
                Kind::BeforeUnload
            } else {
                return None;
            },
            None => return None,
        };
        let line = if kind == Kind::Prompt {
            Line::selected(text_under(params, "defaultPrompt"))
        } else {
            Line::empty()
        };
        Some(
            Dialog {
                kind,
                message: text_under(params, "message").to_owned(),
                url: text_under(params, "url").to_owned(),
                line,
            },
        )
    }

    /// What one key does to the dialog.
    ///
    /// An alert has one button, so any key is it; a yes-or-no takes `y`, `n`,
    /// Enter and Escape; a prompt is a line being typed, so every key but Enter
    /// and Escape is typing. A key let go is nothing, and so is a modifier
    /// pressed on its own.
    pub fn step(&mut self, key: &KeyInput) -> (r: Answer)
        requires
            old(self).wf(),
        ensures
            final(self).wf(),
            (final(self)@, r) == old(self)@.stepped(*key),
    {
        if key.action == KeyAction::Release {
            return Answer::Waiting;
        }
        match key.key {
            Key::Other(_) => return Answer::Waiting,
            _ => {},
        }
        if key.key == Key::Char('q') && key.mods.ctrl() {
            return Answer::Quit;
        }
        match self.kind {
            Kind::Alert => Answer::Accept,
            Kind::Confirm | Kind::BeforeUnload => {
                let bare = !key.mods.ctrl() && !key.mods.alt();
                match key.key {
                    Key::Enter => Answer::Accept,
                    Key::Escape => Answer::Dismiss,
                    Key::Char(c) => if bare && (c == 'y' || c == 'Y') {
                        Answer::Accept
                    } else if bare && (c == 'n' || c == 'N') {
                        Answer::Dismiss
                    } else {
                        Answer::Waiting
                    },
                    _ => Answer::Waiting,
                }
            },
            Kind::Prompt => match self.line.step(key) {
                Edit::Go => Answer::Accept,
                Edit::Cancel => Answer::Dismiss,
                Edit::Quit => Answer::Quit,
                _ => Answer::Waiting,
            },
        }
    }

    /// The parameters of the `Page.handleJavaScriptDialog` that answers it.
    ///
    /// `promptText` only for a prompt that was accepted: it is what `prompt()`
    /// returns. Anything that is not [`Answer::Accept`] is a no.
    pub fn reply(&self, answer: Answer) -> (r: Json)
        ensures
            r@ == self@.replied(answer),
    {
        let accept = answer == Answer::Accept;
        let mut fields = vec![("accept", Json::Bool(accept))];
        if accept && self.kind == Kind::Prompt {
            fields.push(("promptText", Json::string(self.line.text.as_str())));
        }
        proof {
            assert(record_of(fields@) =~= self@.replied(answer)->Record_0);
        }
        Json::object(fields)
    }

    /// The question, as one line of text.
    ///
    /// An alert says it is one, and a page being left asks a question of its
    /// own; the others are the message alone, since the keys that answer them
    /// stand after it.
    pub fn caption(&self) -> (r: String)
        ensures
            r@ == self@.caption(),
    {
        let message = one_line(self.message.as_str());
        let empty = is_blank(message.as_str());
        match self.kind {
            Kind::Alert => if empty {
                "alert".to_owned()
            } else {
                "alert: ".to_owned().concat(message.as_str())
            },
            Kind::BeforeUnload => if empty {
                "leave this page?".to_owned()
            } else {
                "leave this page? ".to_owned().concat(message.as_str())
            },
            Kind::Confirm | Kind::Prompt => message,
        }
    }

    /// Which keys answer it.
    pub fn hint(&self) -> (r: &'static str)
        ensures
            r@ == (match self@.kind {
                Kind::Alert => "any key"@,
                Kind::Confirm => "y/n"@,
                Kind::BeforeUnload => "y/n"@,
                Kind::Prompt => "enter/esc"@,
            }),
    {
        match self.kind {
            Kind::Alert => "any key",
            Kind::Confirm | Kind::BeforeUnload => "y/n",
            Kind::Prompt => "enter/esc",
        }
    }

    /// Whether the row is a line being typed into, and so has the cursor: only
    /// a prompt is.
    pub fn typing(&self) -> (r: bool)
        ensures
            r == (self@.kind == Kind::Prompt),
    {
        self.kind == Kind::Prompt
    }
}

/// White space and control characters, in runs, as one space each, and none of
/// them at the ends.
pub fn one_line(text: &str) -> (r: String)
    ensures
        r@ == closed_up(text@),
{
    let mut out = String::new();
    let mut started = false;
    let mut gap = false;
    proof {
        assert(text@.take(0) =~= Seq::<char>::empty());
    }
    for c in it: text.chars()
        invariant
            it.seq() == text@,
            out@ == closed_up(text@.take(it.index() as int)),
            started == (out@.len() > 0),
            gap == (it.index() > 0 && is_gap(text@[it.index() - 1])),
    {
        proof {
            let i = it.index() as int;
            assert(text@.take(i + 1).drop_last() =~= text@.take(i));
            assert(text@.take(i + 1).last() == c);
            if i > 0 {
                assert(text@.take(i + 1)[i - 1] == text@[i - 1]);
            } else {
                assert(text@.take(0) =~= Seq::<char>::empty());
            }
        }
        if is_space_char(c) || is_control_char(c) {
            gap = true;
        } else {
            if gap && started {
                out.push(' ');
            }
            gap = false;
            started = true;
            out.push(c);
        }
    }
    proof {
        assert(text@.take(text@.len() as int) =~= text@);
    }
    out
}

/// A text that has been closed up is one line: its only gaps are single spaces
/// between two characters that are none.
pub proof fn law_a_message_is_one_line(s: Seq<char>, i: int)
    requires
        0 <= i < closed_up(s).len(),
        is_gap(closed_up(s)[i]),
    ensures
        closed_up(s)[i] == ' ',
        0 < i < closed_up(s).len() - 1,
        !is_gap(closed_up(s)[i - 1]),
        !is_gap(closed_up(s)[i + 1]),
    decreases s.len(),
{
    let before = closed_up(s.drop_last());
    if before.len() > 0 && is_gap(before.last()) {
        law_a_message_is_one_line(s.drop_last(), before.len() - 1);
    }
    if i < before.len() {
        law_a_message_is_one_line(s.drop_last(), i);
    }
}

/// A text that is one line already is left alone.
pub proof fn law_closing_up_is_idempotent(s: Seq<char>)
    ensures
        closed_up(closed_up(s)) == closed_up(s),
    decreases s.len(),
{
    if s.len() > 0 {
        let before = closed_up(s.drop_last());
        law_closing_up_is_idempotent(s.drop_last());
        if !is_gap(s.last()) {
            if before.len() > 0 && is_gap(s[s.len() - 2]) {
                let spaced = before.push(' ');
                let whole = spaced.push(s.last());
                assert(spaced.drop_last() =~= before);
                assert(whole.drop_last() =~= spaced);
                assert(closed_up(spaced) == before);
                assert(whole[whole.len() - 2] == ' ');
                assert(closed_up(whole) == whole);
            } else {
                let whole = before.push(s.last());
                assert(whole.drop_last() =~= before);
                if before.len() > 0 {
                    assert(whole[whole.len() - 2] == before.last());
                }
                if before.len() > 0 && is_gap(before.last()) {
                    law_a_message_is_one_line(s.drop_last(), before.len() - 1);
                }
            }
        }
    }
}

/// A key let go and a modifier on its own decide nothing and change nothing,
/// whatever was asked.
pub proof fn law_a_release_answers_nothing(q: Question, key: KeyInput)
    requires
        key.action == KeyAction::Release || key.key is Other,
    ensures
        q.stepped(key) == (q, Answer::Waiting),
{
}

/// The page hears back what was typed only when a prompt was accepted.
pub proof fn law_only_an_accepted_prompt_says_what_was_typed(q: Question, answer: Answer)
    ensures
        text_of(field(q.replied(answer), "promptText"@)) == (if answer == Answer::Accept && q.kind
            == Kind::Prompt {
            Some(q.line.text)
        } else {
            None
        }),
        crate::json::bool_of(field(q.replied(answer), "accept"@)) == Some(answer == Answer::Accept),
{
    reveal_strlit("accept");
    reveal_strlit("promptText");
    assert("accept"@.len() != "promptText"@.len());
    reveal_with_fuel(crate::json::lookup, 3);
}

/// A question of yes or no is answered by those keys that mean it and waits for
/// the rest, and nothing about it changes meanwhile.
pub proof fn law_yes_is_yes_and_no_is_no(q: Question, key: KeyInput)
    requires
        q.kind == Kind::Confirm || q.kind == Kind::BeforeUnload,
        key.action != KeyAction::Release,
        !(key.key == Key::Char('q') && key.mods.0 & 4u32 != 0),
    ensures
        ({
            let bare = key.mods.0 & 4u32 == 0 && key.mods.0 & 2u32 == 0;
            let (after, answer) = q.stepped(key);
            &&& after == q
            &&& answer == Answer::Accept <==> key.key == Key::Enter || (bare && (key.key
                == Key::Char('y') || key.key == Key::Char('Y')))
            &&& answer == Answer::Dismiss <==> key.key == Key::Escape || (bare && (key.key
                == Key::Char('n') || key.key == Key::Char('N')))
            &&& answer != Answer::Quit
        }),
{
}

/// Any key puts an alert away, control and q quits out of any question, and a
/// prompt goes by its line: the key that ends the line accepts it, the one that
/// leaves it dismisses it.
pub proof fn law_a_question_is_answered_by_its_kind(q: Question, key: KeyInput)
    requires
        key.action != KeyAction::Release,
        !(key.key is Other),
    ensures
        key.key == Key::Char('q') && key.mods.0 & 4u32 != 0 ==> q.stepped(key) == (
            q,
            Answer::Quit,
        ),
        !(key.key == Key::Char('q') && key.mods.0 & 4u32 != 0) && q.kind == Kind::Alert
            ==> q.stepped(key) == (q, Answer::Accept),
        !(key.key == Key::Char('q') && key.mods.0 & 4u32 != 0) && q.kind == Kind::Prompt ==> ({
            let (after, answer) = q.stepped(key);
            let (line, edit) = q.line.stepped(key);
            &&& after.line == line
            &&& after.kind == q.kind && after.message == q.message && after.url == q.url
            &&& answer == Answer::Accept <==> edit == Edit::Go
            &&& answer == Answer::Dismiss <==> edit == Edit::Cancel
            &&& answer == Answer::Quit <==> edit == Edit::Quit
        }),
{
}

/// A dialog is the one that the page asked for: its kind by its name, with the
/// message and the address that came with it, and a prompt starts from what the
/// page offers, all of it to be typed over.
pub proof fn law_a_dialog_is_the_one_that_was_asked(params: Value)
    ensures
        ({
            let name = text_of(field(params, "type"@));
            let asked = question(params);
            &&& (asked matches Some(q) && q.kind == Kind::Alert) <==> name == Some("alert"@)
            &&& (asked matches Some(q) && q.kind == Kind::Confirm) <==> name == Some("confirm"@)
            &&& (asked matches Some(q) && q.kind == Kind::Prompt) <==> name == Some("prompt"@)
            &&& (asked matches Some(q) && q.kind == Kind::BeforeUnload) <==> name == Some(
                "beforeunload"@,
            )
            &&& asked matches Some(q) ==> {
                &&& text_of(field(params, "message"@)) matches Some(m) ==> q.message == m
                &&& text_of(field(params, "url"@)) matches Some(u) ==> q.url == u
                &&& q.kind == Kind::Prompt ==> (text_of(field(params, "defaultPrompt"@)) matches Some(
                    d,
                ) ==> q.line.text == d && q.line.cursor == d.len() && q.line.whole)
                &&& q.kind != Kind::Prompt ==> q.line.text.len() == 0
            }
        }),
{
    reveal_strlit("alert");
    reveal_strlit("confirm");
    reveal_strlit("prompt");
    reveal_strlit("beforeunload");
    assert("alert"@.len() == 5);
    assert("confirm"@.len() == 7);
    assert("prompt"@.len() == 6);
    assert("beforeunload"@.len() == 12);
}

/// The row says what the page says, after what the dialog is.
pub proof fn law_a_caption_ends_with_the_message(q: Question)
    ensures
        q.caption().len() >= closed_up(q.message).len(),
        q.caption().skip(q.caption().len() - closed_up(q.message).len()) == closed_up(q.message),
        q.kind == Kind::Alert ==> q.caption().take(5) == "alert"@,
        q.kind == Kind::BeforeUnload ==> q.caption().take(16) == "leave this page?"@,
        q.kind == Kind::Confirm || q.kind == Kind::Prompt ==> q.caption() == closed_up(q.message),
{
    let message = closed_up(q.message);
    reveal_strlit("alert");
    reveal_strlit("alert: ");
    reveal_strlit("leave this page?");
    reveal_strlit("leave this page? ");
    assert(q.caption().skip(q.caption().len() - message.len()) =~= message);
    if q.kind == Kind::Alert {
        assert(q.caption().take(5) =~= "alert"@);
    }
    if q.kind == Kind::BeforeUnload {
        assert(q.caption().take(16) =~= "leave this page?"@);
    }
}

/// How many words there are: how often something that is no gap follows a gap
/// or stands first.
pub open spec fn word_count(s: Seq<char>) -> nat
    decreases s.len(),
{
    if s.len() == 0 {
        0
    } else {
        word_count(s.drop_last()) + (if !is_gap(s.last()) && (s.len() == 1 || is_gap(
            s[s.len() - 2],
        )) {
            1nat
        } else {
            0
        })
    }
}

/// What is no gap.
pub open spec fn solid(s: Seq<char>) -> Seq<char>
    decreases s.len(),
{
    if s.len() == 0 {
        Seq::empty()
    } else if is_gap(s.last()) {
        solid(s.drop_last())
    } else {
        solid(s.drop_last()).push(s.last())
    }
}

/// A message on one line has every character of every word, in order, and words
/// that stood apart still do.
pub proof fn law_a_message_keeps_its_words(s: Seq<char>)
    ensures
        solid(closed_up(s)) == solid(s),
        word_count(closed_up(s)) == word_count(s),
        closed_up(s).len() == 0 ==> word_count(s) == 0,
        closed_up(s).len() == 0 ==> forall|i: int| 0 <= i < s.len() ==> is_gap(s[i]),
    decreases s.len(),
{
    if s.len() > 0 {
        let t = s.drop_last();
        law_a_message_keeps_its_words(t);
        let before = closed_up(t);
        let c = s.last();
        if is_gap(c) {
            assert forall|i: int| 0 <= i < s.len() && before.len() == 0 implies is_gap(s[i]) by {
                if i < t.len() {
                    assert(t[i] == s[i]);
                }
            }
        } else if before.len() > 0 && is_gap(s[s.len() - 2]) {
            let spaced = before.push(' ');
            let all = spaced.push(c);
            assert(all.drop_last() =~= spaced);
            assert(spaced.drop_last() =~= before);
            assert(is_gap(' '));
            assert(solid(spaced) == solid(before));
            assert(word_count(spaced) == word_count(before));
            assert(spaced[spaced.len() - 1] == all[all.len() - 2]);
            assert(solid(all) == solid(before).push(c));
            assert(word_count(all) == word_count(before) + 1);
        } else {
            let all = before.push(c);
            assert(all.drop_last() =~= before);
            assert(solid(all) == solid(before).push(c));
            if t.len() > 0 {
                assert(t[t.len() - 1] == s[s.len() - 2]);
                assert(before.len() == 0 ==> is_gap(t[t.len() - 1]));
                if before.len() > 0 {
                    assert(before.last() == t.last());
                }
            }
        }
    }
}

}
