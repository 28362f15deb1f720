//! A line being typed: the url bar's, the find prompt's, a `prompt()`'s.
use vstd::prelude::*;

use crate::input::{Key, KeyAction, KeyInput};
use crate::strings::{chars_of, is_space, is_space_char, string_of};
use crate::text::{is_plain, plain};

verus! {

/// A line being typed.
#[derive(Debug, PartialEq, Eq)]
pub struct Line {
    /// What has been typed.
    pub text: String,
    /// How many characters of it are before the cursor.
    pub cursor: usize,
    /// Whether all of it is offered, selected, to be typed over.
    pub whole: bool,
    /// What is offered after it, dim, to be taken.
    pub hint: String,
}

/// What a key did to a line.
#[derive(Debug, Clone, Copy, PartialEq, Eq, Structural)]
pub enum Edit {
    /// The cursor moved, text went out, or nothing happened.
    Typing,
    /// A character went in.
    Inserted,
    /// Enter.
    Go,
    /// Escape.
    Cancel,
    /// `ctrl+q`.
    Quit,
    /// Up.
    Previous,
    /// Down.
    Next,
}

/// What a [`Line`] is.
pub struct Typing {
    pub text: Seq<char>,
    pub cursor: int,
    pub whole: bool,
    pub hint: Seq<char>,
}

/// Where the word that ends at `at` starts: spaces are skipped, then what is
/// not a space.
pub open spec fn word_start(s: Seq<char>, at: int) -> int {
    back_over_word(s, back_over_spaces(s, at))
}

/// The spaces that end at `at` start here.
pub open spec fn back_over_spaces(s: Seq<char>, at: int) -> int
    decreases at,
{
    if 0 < at <= s.len() && is_space(s[at - 1]) {
        back_over_spaces(s, at - 1)
    } else {
        at
    }
}

/// What is not a space and ends at `at` starts here.
pub open spec fn back_over_word(s: Seq<char>, at: int) -> int
    decreases at,
{
    if 0 < at <= s.len() && !is_space(s[at - 1]) {
        back_over_word(s, at - 1)
    } else {
        at
    }
}

impl Typing {
    /// The cursor stands in the text.
    pub open spec fn valid(self) -> bool {
        0 <= self.cursor <= self.text.len()
    }

    /// The cursor moved to `to`, and nothing offered any more.
    pub open spec fn moved(self, to: int) -> Typing {
        Typing { text: self.text, cursor: to, whole: false, hint: Seq::empty() }
    }

    /// The characters from `from` up to `to` taken out.
    pub open spec fn cut(self, from: int, to: int) -> Typing {
        Typing {
            text: self.text.take(from) + self.text.skip(to),
            cursor: from,
            whole: false,
            hint: Seq::empty(),
        }
    }

    /// `more` put in at the cursor, over a line that was offered whole.
    pub open spec fn inserted(self, more: Seq<char>) -> Typing {
        if self.whole {
            Typing { text: more, cursor: more.len() as int, whole: false, hint: Seq::empty() }
        } else {
            Typing {
                text: self.text.take(self.cursor) + more + self.text.skip(self.cursor),
                cursor: self.cursor + more.len(),
                whole: false,
                hint: Seq::empty(),
            }
        }
    }

    /// What was offered after the text, taken.
    pub open spec fn taken(self) -> Typing {
        Typing {
            text: self.text + self.hint,
            cursor: (self.text.len() + self.hint.len()) as int,
            whole: false,
            hint: Seq::empty(),
        }
    }

    /// One character to the right, or the offer taken at the end.
    pub open spec fn right(self) -> Typing {
        if self.cursor == self.text.len() {
            if self.hint.len() > 0 {
                self.taken()
            } else {
                self.moved(self.cursor)
            }
        } else {
            self.moved(self.cursor + 1)
        }
    }

    /// What a key with a name of its own, and no control or alt, does.
    pub open spec fn named(self, key: Key) -> (Typing, Edit) {
        match key {
            Key::Enter => (self, Edit::Go),
            Key::Escape => (self, Edit::Cancel),
            Key::Up => (self, Edit::Previous),
            Key::Down => (self, Edit::Next),
            Key::Tab => if self.hint.len() > 0 {
                (self.taken(), Edit::Typing)
            } else {
                (self, Edit::Typing)
            },
            Key::Backspace => if self.whole {
                (self.cut(0, self.text.len() as int), Edit::Typing)
            } else if self.cursor > 0 {
                (self.cut(self.cursor - 1, self.cursor), Edit::Typing)
            } else {
                (self.moved(self.cursor), Edit::Typing)
            },
            Key::Delete => if self.whole {
                (self.cut(0, self.text.len() as int), Edit::Typing)
            } else if self.cursor < self.text.len() {
                (self.cut(self.cursor, self.cursor + 1), Edit::Typing)
            } else {
                (self.moved(self.cursor), Edit::Typing)
            },
            Key::Left => (
                self.moved(
                    if self.cursor > 0 {
                        self.cursor - 1
                    } else {
                        0
                    },
                ),
                Edit::Typing,
            ),
            Key::Right => (self.right(), Edit::Typing),
            Key::Home => (self.moved(0), Edit::Typing),
            Key::End => (self.moved(self.text.len() as int), Edit::Typing),
            _ => (self, Edit::Typing),
        }
    }

    /// What a letter with control does: readline's keys, and `ctrl+q`.
    pub open spec fn control(self, c: char) -> (Typing, Edit) {
        if c == 'q' {
            (self, Edit::Quit)
        } else if c == 'p' {
            (self, Edit::Previous)
        } else if c == 'n' {
            (self, Edit::Next)
        } else if c == 'a' {
            (self.moved(0), Edit::Typing)
        } else if c == 'e' {
            (self.moved(self.text.len() as int), Edit::Typing)
        } else if c == 'b' {
            self.named(Key::Left)
        } else if c == 'f' {
            self.named(Key::Right)
        } else if c == 'u' {
            (self.cut(0, self.cursor), Edit::Typing)
        } else if c == 'k' {
            (self.cut(self.cursor, self.text.len() as int).moved(self.cursor), Edit::Typing)
        } else if c == 'w' {
            (self.cut(word_start(self.text, self.cursor), self.cursor), Edit::Typing)
        } else {
            (self, Edit::Typing)
        }
    }

    /// What a key does: the line after it, and what it was.
    pub open spec fn stepped(self, key: KeyInput) -> (Typing, Edit) {
        if key.action == KeyAction::Release {
            (self, Edit::Typing)
        } else {
            match key.key {
                Key::Char(c) => if key.mods.has_ctrl() && !key.mods.has_alt() {
                    self.control(c)
                } else if key.mods.has_ctrl() || key.mods.has_alt() || key.mods.has_super() {
                    (self, Edit::Typing)
                } else {
                    match key.text {
                        Some(t) => if plain(t) {
                            (self.inserted(seq![t]), Edit::Inserted)
                        } else {
                            (self, Edit::Typing)
                        },
                        None => (self, Edit::Typing),
                    }
                },
                named => self.named(named),
            }
        }
    }
}

impl View for Line {
    type V = Typing;

    open spec fn view(&self) -> Typing {
        Typing {
            text: self.text@,
            cursor: self.cursor as int,
            whole: self.whole,
            hint: self.hint@,
        }
    }
}

impl Clone for Line {
    fn clone(&self) -> (r: Line)
        ensures
            r@ == self@,
    {
        Line {
            text: self.text.clone(),
            cursor: self.cursor,
            whole: self.whole,
            hint: self.hint.clone(),
        }
    }
}

impl Line {
    /// The cursor stands in the text.
    pub open spec fn wf(self) -> bool {
        self@.valid()
    }

    /// Nothing typed yet.
    pub fn empty() -> (r: Line)
        ensures
            r.wf(),
            r@ == (Typing { text: Seq::empty(), cursor: 0, whole: false, hint: Seq::empty() }),
    {
        Line { text: String::new(), cursor: 0, whole: false, hint: String::new() }
    }

    /// `text`, offered whole.
    pub fn selected(text: &str) -> (r: Line)
        ensures
            r.wf(),
            r@ == (Typing {
                text: text@,
                cursor: text@.len() as int,
                whole: true,
                hint: Seq::empty(),
            }),
    {
        let chars = chars_of(text);
        Line { text: text.to_owned(), cursor: chars.len(), whole: true, hint: String::new() }
    }

    /// What has been typed.
    pub fn text(&self) -> (r: &str)
        ensures
            r@ == self@.text,
    {
        self.text.as_str()
    }

    /// Whether all of it is offered, to be typed over.
    pub fn whole(&self) -> (r: bool)
        ensures
            r == self@.whole,
    {
        self.whole
    }

    /// What is offered after it.
    pub fn hint(&self) -> (r: &str)
        ensures
            r@ == self@.hint,
    {
        self.hint.as_str()
    }

    /// Offer the rest of what is being typed, or nothing: an offer stands
    /// after the text, so only with the cursor there.
    pub fn suggest(&mut self, rest: Option<String>)
        requires
            old(self).wf(),
        ensures
            final(self).wf(),
            final(self)@ == (Typing {
                hint: match rest {
                    Some(rest) => if old(self)@.cursor == old(self)@.text.len() {
                        rest@
                    } else {
                        Seq::empty()
                    },
                    None => Seq::empty(),
                },
                ..old(self)@
            }),
    {
        let chars = chars_of(self.text.as_str());
        match rest {
            Some(rest) => if self.cursor == chars.len() {
                self.hint = rest;
            } else {
                self.hint = String::new();
            },
            None => {
                self.hint = String::new();
            },
        }
    }

    /// Put another text in the line, the cursor at its end.
    pub fn set_text(&mut self, text: &str)
        ensures
            final(self).wf(),
            final(self)@ == (Typing {
                text: text@,
                cursor: text@.len() as int,
                whole: false,
                hint: Seq::empty(),
            }),
    {
        let chars = chars_of(text);
        self.text = text.to_owned();
        self.cursor = chars.len();
        self.whole = false;
        self.hint = String::new();
    }

    /// Put `more` in at the cursor, over a line offered whole: whether there
    /// was anything to put.
    pub fn insert_str(&mut self, more: &str) -> (r: bool)
        requires
            old(self).wf(),
        ensures
            final(self).wf(),
            r == (more@.len() > 0),
            r ==> final(self)@ == old(self)@.inserted(more@),
            !r ==> final(self)@ == old(self)@,
    {
        let more = chars_of(more);
        if more.len() == 0 {
            return false;
        }
        self.insert_chars(more.as_slice());
        true
    }

    /// Put characters in at the cursor, over a line offered whole.
    fn insert_chars(&mut self, more: &[char])
        requires
            old(self).wf(),
        ensures
            final(self).wf(),
            final(self)@ == old(self)@.inserted(more@),
    {
        let text = chars_of(self.text.as_str());
        let mut out: Vec<char> = Vec::new();
        let at: usize = if self.whole {
            0
        } else {
            self.cursor
        };
        let keep: usize = if self.whole {
            text.len()
        } else {
            self.cursor
        };
        append(&mut out, text.as_slice(), 0, at);
        append(&mut out, more, 0, more.len());
        append(&mut out, text.as_slice(), keep, text.len());
        proof {
            assert(more@.subrange(0, more@.len() as int) =~= more@);
            assert(out@ =~= old(self)@.inserted(more@).text);
        }
        self.text = string_of(out.as_slice());
        self.cursor = out.len() - (text.len() - keep);
        self.whole = false;
        self.hint = String::new();
    }

    /// Move the cursor.
    fn move_to(&mut self, to: usize)
        requires
            to <= old(self)@.text.len(),
        ensures
            final(self).wf(),
            final(self)@ == old(self)@.moved(to as int),
    {
        self.cursor = to;
        self.whole = false;
        self.hint = String::new();
    }

    /// Take characters out.
    fn cut_out(&mut self, from: usize, to: usize)
        requires
            from <= to <= old(self)@.text.len(),
        ensures
            final(self).wf(),
            final(self)@ == old(self)@.cut(from as int, to as int),
    {
        let text = chars_of(self.text.as_str());
        let mut out: Vec<char> = Vec::new();
        append(&mut out, text.as_slice(), 0, from);
        append(&mut out, text.as_slice(), to, text.len());
        proof {
            assert(out@ =~= old(self)@.cut(from as int, to as int).text);
        }
        self.text = string_of(out.as_slice());
        self.cursor = from;
        self.whole = false;
        self.hint = String::new();
    }

    /// Take what is offered after the text.
    fn take_hint(&mut self)
        requires
            old(self).wf(),
        ensures
            final(self).wf(),
            final(self)@ == old(self)@.taken(),
    {
        let text = chars_of(self.text.as_str());
        let hint = chars_of(self.hint.as_str());
        let mut out: Vec<char> = Vec::new();
        append(&mut out, text.as_slice(), 0, text.len());
        append(&mut out, hint.as_slice(), 0, hint.len());
        proof {
            assert(out@ =~= old(self)@.text + old(self)@.hint);
        }
        self.cursor = out.len();
        self.text = string_of(out.as_slice());
        self.whole = false;
        self.hint = String::new();
    }

    /// What a key with a name of its own does.
    fn step_named(&mut self, key: Key) -> (r: Edit)
        requires
            old(self).wf(),
        ensures
            final(self).wf(),
            (final(self)@, r) == old(self)@.named(key),
    {
        let text = chars_of(self.text.as_str());
        let offered = !self.hint.as_str().is_empty();
        match key {
            Key::Enter => Edit::Go,
            Key::Escape => Edit::Cancel,
            Key::Up => Edit::Previous,
            Key::Down => Edit::Next,
            Key::Tab => {
                if offered {
                    self.take_hint();
                }
                Edit::Typing
            },
            Key::Backspace => {
                if self.whole {
                    self.cut_out(0, text.len());
                } else if self.cursor > 0 {
                    self.cut_out(self.cursor - 1, self.cursor);
                } else {
                    self.move_to(self.cursor);
                }
                Edit::Typing
            },
            Key::Delete => {
                if self.whole {
                    self.cut_out(0, text.len());
                } else if self.cursor < text.len() {
                    self.cut_out(self.cursor, self.cursor + 1);
                } else {
                    self.move_to(self.cursor);
                }
                Edit::Typing
            },
            Key::Left => {
                if self.cursor > 0 {
                    self.move_to(self.cursor - 1);
                } else {
                    self.move_to(0);
                }
                Edit::Typing
            },
            Key::Right => {
                if self.cursor == text.len() {
                    if offered {
                        self.take_hint();
                    } else {
                        self.move_to(self.cursor);
                    }
                } else {
                    self.move_to(self.cursor + 1);
                }
                Edit::Typing
            },
            Key::Home => {
                self.move_to(0);
                Edit::Typing
            },
            Key::End => {
                self.move_to(text.len());
                Edit::Typing
            },
            _ => Edit::Typing,
        }
    }

    /// What a letter with control does.
    fn step_control(&mut self, c: char) -> (r: Edit)
        requires
            old(self).wf(),
        ensures
            final(self).wf(),
            (final(self)@, r) == old(self)@.control(c),
    {
        let text = chars_of(self.text.as_str());
        match c {
            'q' => Edit::Quit,
            'p' => Edit::Previous,
            'n' => Edit::Next,
            'a' => {
                self.move_to(0);
                Edit::Typing
            },
            'e' => {
                self.move_to(text.len());
                Edit::Typing
            },
            'b' => self.step_named(Key::Left),
            'f' => self.step_named(Key::Right),
            'u' => {
                self.cut_out(0, self.cursor);
                Edit::Typing
            },
            'k' => {
                self.cut_out(self.cursor, text.len());
                Edit::Typing
            },
            'w' => {
                let from = word_start_of(text.as_slice(), self.cursor);
                self.cut_out(from, self.cursor);
                Edit::Typing
            },
            _ => Edit::Typing,
        }
    }

    /// What a key does to the line.
    pub fn step(&mut self, key: &KeyInput) -> (r: Edit)
        requires
            old(self).wf(),
        ensures
            final(self).wf(),
            (final(self)@, r) == old(self)@.stepped(*key),
    {
        if key.action == KeyAction::Release {
            return Edit::Typing;
        }
        match key.key {
            Key::Char(c) => {
                let ctrl = key.mods.ctrl();
                let alt = key.mods.alt();
                if ctrl && !alt {
                    return self.step_control(c);
                }
                if ctrl || alt || key.mods.meta() {
                    return Edit::Typing;
                }
                match key.text {
                    Some(t) => {
                        if is_plain(t) {
                            let mut one: Vec<char> = Vec::new();
                            one.push(t);
                            self.insert_chars(one.as_slice());
                            proof {
                                assert(one@ =~= seq![t]);
                            }
                            Edit::Inserted
                        } else {
                            Edit::Typing
                        }
                    },
                    None => Edit::Typing,
                }
            },
            named => self.step_named(named),
        }
    }
}

/// Add the characters of `more` from `from` up to `to`.
fn append(out: &mut Vec<char>, more: &[char], from: usize, to: usize)
    requires
        from <= to <= more@.len(),
    ensures
        final(out)@ == old(out)@ + more@.subrange(from as int, to as int),
{
    let ghost before = out@;
    let mut i: usize = from;
    while i < to
        invariant
            from <= i <= to <= more@.len(),
            out@ == before + more@.subrange(from as int, i as int),
        decreases to - i,
    {
        out.push(more[i]);
        i += 1;
        proof {
            assert(before + more@.subrange(from as int, i as int) =~= (before + more@.subrange(
                from as int,
                i - 1,
            )).push(more@[i - 1]));
        }
    }
}

/// Where the word that ends at `at` starts.
fn word_start_of(s: &[char], at: usize) -> (r: usize)
    requires
        at <= s@.len(),
    ensures
        r == word_start(s@, at as int),
        r <= at,
{
    let mut i: usize = at;
    while i > 0 && is_space_char(s[i - 1])
        invariant
            i <= at <= s@.len(),
            back_over_spaces(s@, at as int) == back_over_spaces(s@, i as int),
        decreases i,
    {
        i -= 1;
    }
    let ghost spaced = i as int;
    while i > 0 && !is_space_char(s[i - 1])
        invariant
            i <= at <= s@.len(),
            back_over_word(s@, spaced) == back_over_word(s@, i as int),
        decreases i,
    {
        i -= 1;
    }
    i
}

/// A key let go changes nothing.
pub proof fn law_a_release_changes_nothing(line: Typing, key: KeyInput)
    requires
        key.action == KeyAction::Release,
    ensures
        line.stepped(key) == (line, Edit::Typing),
{
}

/// The first character typed into a line offered whole replaces it.
pub proof fn law_typing_replaces_an_offered_line(line: Typing, key: KeyInput, c: char)
    requires
        line.whole,
        key.action != KeyAction::Release,
        key.key is Char,
        key.text == Some(c),
        plain(c),
        !key.mods.has_ctrl(),
        !key.mods.has_alt(),
        !key.mods.has_super(),
    ensures
        line.stepped(key).0.text == seq![c],
        !line.stepped(key).0.whole,
{
}

/// A character typed and taken back with backspace leaves the text as it was.
pub proof fn law_backspace_takes_back_a_character(line: Typing, c: char)
    requires
        line.valid(),
        !line.whole,
    ensures
        line.inserted(seq![c]).named(Key::Backspace).0.text == line.text,
        line.inserted(seq![c]).named(Key::Backspace).0.cursor == line.cursor,
{
    assert(line.inserted(seq![c]).named(Key::Backspace).0.text =~= line.text);
}

/// A line that holds `before` and `after`, with the cursor between them.
pub open spec fn between(before: Seq<char>, after: Seq<char>, hint: Seq<char>) -> Typing {
    Typing { text: before + after, cursor: before.len() as int, whole: false, hint }
}

/// What is typed goes in at the cursor, which follows it; a key takes out the
/// character on its own side of the cursor and leaves the rest of the line; and
/// moving changes nothing but where the cursor is.
pub proof fn law_a_key_edits_at_the_cursor(
    a: Seq<char>,
    b: Seq<char>,
    hint: Seq<char>,
    more: Seq<char>,
    c: char,
)
    ensures
        between(a, b, hint).inserted(more) == between(a + more, b, Seq::empty()),
        between(a.push(c), b, hint).named(Key::Backspace) == (
            between(a, b, Seq::empty()),
            Edit::Typing,
        ),
        between(a, seq![c] + b, hint).named(Key::Delete) == (
            between(a, b, Seq::empty()),
            Edit::Typing,
        ),
        between(a.push(c), b, hint).named(Key::Left) == (
            between(a, seq![c] + b, Seq::empty()),
            Edit::Typing,
        ),
        between(a, seq![c] + b, hint).named(Key::Right) == (
            between(a.push(c), b, Seq::empty()),
            Edit::Typing,
        ),
        between(a, b, hint).named(Key::Home) == (
            between(Seq::empty(), a + b, Seq::empty()),
            Edit::Typing,
        ),
        between(a, b, hint).named(Key::End) == (
            between(a + b, Seq::empty(), Seq::empty()),
            Edit::Typing,
        ),
        between(Seq::empty(), b, hint).named(Key::Backspace).0.text == b,
        between(Seq::empty(), b, hint).named(Key::Left).0 == between(
            Seq::empty(),
            b,
            Seq::empty(),
        ),
        between(a, Seq::empty(), hint).named(Key::Delete).0.text == a,
{
    let none = Seq::<char>::empty();
    let l = between(a, b, hint);
    assert(l.text.take(l.cursor) =~= a);
    assert(l.text.skip(l.cursor) =~= b);
    assert(a + more + b =~= (a + more) + b);
    let l = between(a.push(c), b, hint);
    assert(l.text.take(l.cursor - 1) =~= a);
    assert(l.text.skip(l.cursor) =~= b);
    assert(a.push(c) + b =~= a + (seq![c] + b));
    let l = between(a, seq![c] + b, hint);
    assert(l.text.take(l.cursor) =~= a);
    assert(l.text.skip(l.cursor + 1) =~= b);
    assert(none + (a + b) =~= a + b);
    assert((a + b) + none =~= a + b);
    assert(none + b =~= b);
    assert(a + none =~= a);
}

/// Control and a letter: to the start, to the end, a step either way, and all
/// before the cursor, all after it, or the word before it taken out.
pub proof fn law_control_edits_as_a_shell_does(
    a: Seq<char>,
    word: Seq<char>,
    spaces: Seq<char>,
    b: Seq<char>,
    hint: Seq<char>,
)
    requires
        a.len() == 0 || is_space(a.last()),
        word.len() > 0,
        forall|i: int| 0 <= i < word.len() ==> !is_space(#[trigger] word[i]),
        forall|i: int| 0 <= i < spaces.len() ==> is_space(#[trigger] spaces[i]),
    ensures
        ({
            let before = a + word + spaces;
            let line = between(before, b, hint);
            &&& line.control('a') == line.named(Key::Home)
            &&& line.control('e') == line.named(Key::End)
            &&& line.control('b') == line.named(Key::Left)
            &&& line.control('f') == line.named(Key::Right)
            &&& line.control('u') == (between(Seq::empty(), b, Seq::empty()), Edit::Typing)
            &&& line.control('k') == (between(before, Seq::empty(), Seq::empty()), Edit::Typing)
            &&& line.control('w') == (between(a, b, Seq::empty()), Edit::Typing)
            &&& line.control('p') == (line, Edit::Previous)
            &&& line.control('n') == (line, Edit::Next)
            &&& line.control('q') == (line, Edit::Quit)
        }),
{
    let none = Seq::<char>::empty();
    let before = a + word + spaces;
    let line = between(before, b, hint);
    assert(line.text.take(0) =~= none);
    assert(line.text.skip(line.cursor) =~= b);
    assert(line.text.take(line.cursor) =~= before);
    assert(line.text.skip(line.text.len() as int) =~= none);
    assert(before + none =~= before);
    assert(none + b =~= b);
    lemma_back_over_spaces(line.text, (a + word).len() as int, line.cursor);
    lemma_back_over_word(line.text, a.len() as int, (a + word).len() as int);
    assert(line.text.take(a.len() as int) =~= a);
}

proof fn lemma_back_over_spaces(s: Seq<char>, from: int, at: int)
    requires
        0 <= from <= at <= s.len(),
        forall|i: int| from <= i < at ==> is_space(#[trigger] s[i]),
        from == 0 || !is_space(s[from - 1]),
    ensures
        back_over_spaces(s, at) == from,
    decreases at - from,
{
    if from < at {
        assert(is_space(s[at - 1]));
        lemma_back_over_spaces(s, from, at - 1);
    }
}

proof fn lemma_back_over_word(s: Seq<char>, from: int, at: int)
    requires
        0 <= from <= at <= s.len(),
        forall|i: int| from <= i < at ==> !is_space(#[trigger] s[i]),
        from == 0 || is_space(s[from - 1]),
    ensures
        back_over_word(s, at) == from,
    decreases at - from,
{
    if from < at {
        assert(!is_space(s[at - 1]));
        lemma_back_over_word(s, from, at - 1);
    }
}

/// What is offered after the line becomes part of it, whole, when it is asked
/// for at the end of the line; and a line that is all selected is emptied by the
/// keys that take out.
pub proof fn law_an_offer_is_taken_whole(text: Seq<char>, hint: Seq<char>, cursor: int)
    requires
        hint.len() > 0,
    ensures
        between(text, Seq::empty(), hint).named(Key::Right).0 == between(
            text + hint,
            Seq::empty(),
            Seq::empty(),
        ),
        between(text, Seq::empty(), hint).named(Key::Tab).0 == between(
            text + hint,
            Seq::empty(),
            Seq::empty(),
        ),
        ({
            let all = Typing { text, cursor, whole: true, hint };
            &&& all.named(Key::Backspace).0 == between(Seq::empty(), Seq::empty(), Seq::empty())
            &&& all.named(Key::Delete).0 == between(Seq::empty(), Seq::empty(), Seq::empty())
        }),
{
    let none = Seq::<char>::empty();
    assert(text + none =~= text);
    assert((text + hint) + none =~= text + hint);
    assert(text.take(0) + text.skip(text.len() as int) =~= none + none);
}

/// Which key asks for what: the line goes on enter, is left on escape, and up and
/// down look through what came before; a character with nothing held is typed.
pub proof fn law_a_key_asks_for_its_edit(line: Typing, key: KeyInput)
    requires
        key.action != KeyAction::Release,
    ensures
        ({
            let (after, edit) = line.stepped(key);
            let ctrl = key.mods.0 & 4u32 != 0 && key.mods.0 & 2u32 == 0;
            let held = key.mods.0 & 4u32 != 0 || key.mods.0 & 2u32 != 0 || key.mods.0 & 8u32 != 0;
            &&& edit == Edit::Go <==> key.key == Key::Enter
            &&& edit == Edit::Cancel <==> key.key == Key::Escape
            &&& edit == Edit::Previous <==> key.key == Key::Up || (ctrl && key.key == Key::Char('p'))
            &&& edit == Edit::Next <==> key.key == Key::Down || (ctrl && key.key == Key::Char('n'))
            &&& edit == Edit::Quit <==> ctrl && key.key == Key::Char('q')
            &&& edit == Edit::Inserted <==> key.key is Char && !held && (key.text matches Some(t)
                && plain(t))
            &&& edit == Edit::Inserted ==> after == line.inserted(seq![key.text->Some_0])
            &&& !(edit == Edit::Inserted || edit == Edit::Typing) ==> after == line
            &&& key.key is Char && held && !ctrl ==> after == line
            &&& !(key.key is Char) ==> (after, edit) == line.named(key.key)
        }),
{
}

}
